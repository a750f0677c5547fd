//! Bech32m addresses (`hsn1…`): BIP-350 bech32m with HRP `hsn` over the first
//! 32 bytes of the Blake3-512 address digest of an ML-DSA-87 public key.
//! The legacy form `hsn:<128 hex>` (full digest) is still accepted when
//! comparing addresses.
//!
//! Decoding works on the UTF-8 bytes of the string, which is how the
//! format treats it: case folding and the separator search only concern
//! ASCII bytes.

use vstd::prelude::*;
use vstd::string::StringSliceAdditionalSpecFns;
use vstd::utf8::{encode_utf8, is_ascii_chars, is_ascii_chars_encode_utf8};
use crate::bytes::{
    ascii_chars, all_ascii, bytes_eq, hex_decode, hex_decode_spec, hex_encode_bytes, hex_encode_spec,
    push_all, string_from_ascii,
};
use crate::hash::{address_hash, spec_address_hash};

verus! {

/// Payload size encoded in bech32m (bytes of the address digest prefix).
pub const ADDRESS_PAYLOAD_LEN: usize = 32;
/// The bech32m checksum constant (BIP-350).
pub const BECH32M_CONST: u32 = 0x2bc8_30a3;

/// The bech32 data alphabet `qpzry9x8gf2tvdw0s3jn54khce6mua7l`.
pub open spec fn charset() -> Seq<u8> {
    seq![
        113u8, 112u8, 122u8, 114u8, 121u8, 57u8, 120u8, 56u8, 103u8, 102u8, 50u8, 116u8, 118u8,
        100u8, 119u8, 48u8, 115u8, 51u8, 106u8, 110u8, 53u8, 52u8, 107u8, 104u8, 99u8, 101u8, 54u8,
        109u8, 117u8, 97u8, 55u8, 108u8,
    ]
}

fn charset_exec() -> (r: [u8; 32])
    ensures
        r@ == charset(),
{
    let r: [u8; 32] = [
        113u8, 112u8, 122u8, 114u8, 121u8, 57u8, 120u8, 56u8, 103u8, 102u8, 50u8, 116u8, 118u8,
        100u8, 119u8, 48u8, 115u8, 51u8, 106u8, 110u8, 53u8, 52u8, 107u8, 104u8, 99u8, 101u8, 54u8,
        109u8, 117u8, 97u8, 55u8, 108u8,
    ];
    proof {
        assert(r@ =~= charset());
    }
    r
}

/// The human-readable part `hsn`.
pub open spec fn hrp_hsn() -> Seq<u8> {
    seq![104u8, 115u8, 110u8]
}

/// The legacy prefix `hsn:`.
pub open spec fn legacy_prefix() -> Seq<u8> {
    seq![104u8, 115u8, 110u8, 58u8]
}

/// XOR of the BCH generators selected by the five low bits of `b`.
pub open spec fn gen_mix(b: u32) -> u32 {
    (if b & 1 == 1 { 0x3b6a_57b2u32 } else { 0u32 }) ^ (if (b >> 1u32) & 1 == 1 {
        0x2650_8e6du32
    } else {
        0u32
    }) ^ (if (b >> 2u32) & 1 == 1 { 0x1ea1_19fau32 } else { 0u32 }) ^ (if (b >> 3u32) & 1 == 1 {
        0x3d42_33ddu32
    } else {
        0u32
    }) ^ (if (b >> 4u32) & 1 == 1 { 0x2a14_62b3u32 } else { 0u32 })
}

/// One step of the bech32 checksum polynomial.
pub open spec fn polymod_step(chk: u32, v: u8) -> u32 {
    (((chk & 0x1ff_ffff) << 5u32) ^ (v as u32)) ^ gen_mix(chk >> 25u32)
}

/// The bech32 checksum polynomial over `values`, starting from 1.
pub open spec fn polymod_spec(values: Seq<u8>) -> u32
    decreases values.len(),
{
    if values.len() == 0 {
        1
    } else {
        polymod_step(polymod_spec(values.drop_last()), values.last())
    }
}

fn polymod_step_exec(chk: u32, v: u8) -> (r: u32)
    ensures
        r == polymod_step(chk, v),
{
    let b = chk >> 25u32;
    let mut c: u32 = ((chk & 0x1ff_ffff) << 5u32) ^ (v as u32);
    let g0: u32 = if b & 1 == 1 { 0x3b6a_57b2u32 } else { 0u32 };
    let g1: u32 = if (b >> 1u32) & 1 == 1 { 0x2650_8e6du32 } else { 0u32 };
    let g2: u32 = if (b >> 2u32) & 1 == 1 { 0x1ea1_19fau32 } else { 0u32 };
    let g3: u32 = if (b >> 3u32) & 1 == 1 { 0x3d42_33ddu32 } else { 0u32 };
    let g4: u32 = if (b >> 4u32) & 1 == 1 { 0x2a14_62b3u32 } else { 0u32 };
    c ^ (g0 ^ g1 ^ g2 ^ g3 ^ g4)
}

fn polymod(values: &[u8]) -> (r: u32)
    ensures
        r == polymod_spec(values@),
{
    let mut chk: u32 = 1;
    let mut i: usize = 0;
    proof {
        assert(values@.take(0) =~= Seq::<u8>::empty());
    }
    while i < values.len()
        invariant
            i <= values@.len(),
            chk == polymod_spec(values@.take(i as int)),
        decreases values@.len() - i,
    {
        chk = polymod_step_exec(chk, values[i]);
        proof {
            assert(values@.take(i + 1).drop_last() =~= values@.take(i as int));
        }
        i = i + 1;
    }
    proof {
        assert(values@.take(values@.len() as int) =~= values@);
    }
    chk
}

/// HRP expansion: high bits of each character, a zero, then low bits.
pub open spec fn hrp_expand_spec(hrp: Seq<u8>) -> Seq<u8> {
    Seq::new(hrp.len(), |i: int| hrp[i] >> 5u8) + seq![0u8] + Seq::new(hrp.len(), |i: int| hrp[i] & 31u8)
}

fn hrp_expand(hrp: &[u8]) -> (r: Vec<u8>)
    ensures
        r@ == hrp_expand_spec(hrp@),
{
    let mut out: Vec<u8> = Vec::new();
    let mut i: usize = 0;
    while i < hrp.len()
        invariant
            i <= hrp@.len(),
            out@ == Seq::new(i as nat, |k: int| hrp@[k] >> 5u8),
        decreases hrp@.len() - i,
    {
        out.push(hrp[i] >> 5u8);
        proof {
            assert(out@ =~= Seq::new((i + 1) as nat, |k: int| hrp@[k] >> 5u8));
        }
        i = i + 1;
    }
    out.push(0u8);
    let ghost head = out@;
    let mut j: usize = 0;
    while j < hrp.len()
        invariant
            j <= hrp@.len(),
            out@ == head + Seq::new(j as nat, |k: int| hrp@[k] & 31u8),
        decreases hrp@.len() - j,
    {
        out.push(hrp[j] & 31u8);
        proof {
            assert(out@ =~= head + Seq::new((j + 1) as nat, |k: int| hrp@[k] & 31u8));
        }
        j = j + 1;
    }
    proof {
        assert(out@ =~= hrp_expand_spec(hrp@));
    }
    out
}

/// Regrouping state after some input: `(acc, bits, output, still_valid)`.
pub open spec fn cb_emit(acc: u32, bits: u32, to: u32, ret: Seq<u8>) -> (u32, Seq<u8>)
    decreases bits,
{
    if to >= 1 && bits >= to {
        cb_emit(
            acc,
            (bits - to) as u32,
            to,
            ret.push(((acc >> ((bits - to) as u32)) & (((1u32 << to) - 1) as u32)) as u8),
        )
    } else {
        (bits, ret)
    }
}

/// Bit-regrouping state machine over `data` (BIP-173 `convertbits`).
pub open spec fn cb_state(data: Seq<u8>, from: u32, to: u32) -> (u32, u32, Seq<u8>, bool)
    decreases data.len(),
{
    if data.len() == 0 {
        (0, 0, Seq::empty(), true)
    } else {
        let (acc, bits, ret, ok) = cb_state(data.drop_last(), from, to);
        let value = data.last();
        if !ok || ((value as u32) >> from) != 0 {
            (acc, bits, ret, false)
        } else {
            let acc2 = (acc << from) | (value as u32);
            let (bits2, ret2) = cb_emit(acc2, (bits + from) as u32, to, ret);
            (acc2, bits2, ret2, true)
        }
    }
}

/// `convertbits(data, from, to, pad)`: `None` when a value does not fit in
/// `from` bits or (without padding) when leftover bits are not zero padding.
pub open spec fn convert_bits_spec(data: Seq<u8>, from: u32, to: u32, pad: bool) -> Option<Seq<u8>> {
    let (acc, bits, ret, ok) = cb_state(data, from, to);
    let maxv = ((1u32 << to) - 1) as u32;
    if !ok {
        None
    } else if pad {
        if bits > 0 {
            Some(ret.push(((acc << ((to - bits) as u32)) & maxv) as u8))
        } else {
            Some(ret)
        }
    } else if bits >= from || ((acc << ((to - bits) as u32)) & maxv) != 0 {
        None
    } else {
        Some(ret)
    }
}

proof fn lemma_mask_value(to: u32)
    requires
        1 <= to <= 8,
    ensures
        ((1u32 << to) - 1) as u32 <= 255,
        (1u32 << to) >= 2,
{
    assert(1 <= to <= 8 ==> (1u32 << to) >= 2 && ((1u32 << to) - 1) as u32 <= 255) by (bit_vector);
}

/// Emitting while at least `to` bits are buffered.
fn cb_emit_exec(acc: u32, bits: u32, to: u32, ret: &mut Vec<u8>) -> (r: u32)
    requires
        1 <= to <= 8,
        bits < 32,
    ensures
        (r, final(ret)@) == cb_emit(acc, bits, to, old(ret)@),
        r < to,
{
    let mut b = bits;
    proof {
        lemma_mask_value(to);
    }
    let maxv: u32 = (1u32 << to) - 1;
    while b >= to
        invariant
            1 <= to <= 8,
            b < 32,
            maxv == ((1u32 << to) - 1) as u32,
            cb_emit(acc, b, to, ret@) == cb_emit(acc, bits, to, old(ret)@),
        decreases b,
    {
        b = b - to;
        ret.push(#[verifier::truncate] (((acc >> b) & maxv) as u8));
    }
    b
}

/// Bit regrouping (BIP-173 `convertbits`).
fn convert_bits(data: &[u8], from: u32, to: u32, pad: bool) -> (r: Option<Vec<u8>>)
    requires
        1 <= from <= 8,
        1 <= to <= 8,
    ensures
        match r {
            Some(v) => convert_bits_spec(data@, from, to, pad) == Some(v@),
            None => convert_bits_spec(data@, from, to, pad) is None,
        },
{
    let mut acc: u32 = 0;
    let mut bits: u32 = 0;
    let mut ret: Vec<u8> = Vec::new();
    proof {
        lemma_mask_value(to);
        assert(data@.take(0) =~= Seq::<u8>::empty());
    }
    let maxv: u32 = (1u32 << to) - 1;
    let mut i: usize = 0;
    while i < data.len()
        invariant
            i <= data@.len(),
            1 <= from <= 8,
            1 <= to <= 8,
            maxv == ((1u32 << to) - 1) as u32,
            bits < to,
            cb_state(data@.take(i as int), from, to) == (acc, bits, ret@, true),
        decreases data@.len() - i,
    {
        let value = data[i];
        proof {
            assert(data@.take(i + 1).drop_last() =~= data@.take(i as int));
            assert(data@.take(i + 1).last() == value);
        }
        if ((value as u32) >> from) != 0 {
            proof {
                lemma_cb_state_fails_after(data@, from, to, (i + 1) as nat);
                assert(data@.take(data@.len() as int) =~= data@);
            }
            return None;
        }
        acc = (acc << from) | (value as u32);
        bits = cb_emit_exec(acc, bits + from, to, &mut ret);
        i = i + 1;
    }
    proof {
        assert(data@.take(data@.len() as int) =~= data@);
    }
    if pad {
        if bits > 0 {
            ret.push(#[verifier::truncate] (((acc << (to - bits)) & maxv) as u8));
        }
    } else if bits >= from || ((acc << (to - bits)) & maxv) != 0 {
        return None;
    }
    Some(ret)
}

/// Once the regrouping has failed it stays failed.
proof fn lemma_cb_state_fails_after(data: Seq<u8>, from: u32, to: u32, k: nat)
    requires
        k <= data.len(),
        !cb_state(data.take(k as int), from, to).3,
    ensures
        !cb_state(data, from, to).3,
    decreases data.len() - k,
{
    if k < data.len() {
        assert(data.take((k + 1) as int).drop_last() =~= data.take(k as int));
        lemma_cb_state_fails_after(data, from, to, k + 1);
    } else {
        assert(data.take(k as int) =~= data);
    }
}

/// The six checksum symbols for `values` (already including `hrp_expand` and data).
pub open spec fn checksum_symbols(chk: u32) -> Seq<u8> {
    Seq::new(6, |i: int| ((chk >> ((5 * (5 - i)) as u32)) & 31u32) as u8)
}

/// The bech32m string bytes for `hrp` and 5-bit `data`:
/// `hrp ‖ '1' ‖ charset[data] ‖ charset[checksum]`.
pub open spec fn encode_spec(hrp: Seq<u8>, data: Seq<u8>) -> Seq<u8> {
    let chk = polymod_spec(hrp_expand_spec(hrp) + data + seq![0u8, 0u8, 0u8, 0u8, 0u8, 0u8])
        ^ BECH32M_CONST;
    hrp + seq![49u8] + data.map_values(|d: u8| charset()[d as int]) + checksum_symbols(chk).map_values(
        |d: u8| charset()[d as int],
    )
}

/// All values are 5-bit.
pub open spec fn all_5bit(data: Seq<u8>) -> bool {
    forall|i: int| 0 <= i < data.len() ==> data[i] < 32
}

fn encode(hrp: &[u8], data: &[u8]) -> (r: Vec<u8>)
    requires
        all_5bit(data@),
    ensures
        r@ == encode_spec(hrp@, data@),
{
    let cs = charset_exec();
    let mut values = hrp_expand(hrp);
    push_all(&mut values, data);
    let zeros: [u8; 6] = [0u8; 6];
    push_all(&mut values, zeros.as_slice());
    proof {
        assert(zeros@ =~= seq![0u8, 0u8, 0u8, 0u8, 0u8, 0u8]);
    }
    let checksum = polymod(values.as_slice()) ^ BECH32M_CONST;
    let mut out: Vec<u8> = Vec::new();
    push_all(&mut out, hrp);
    out.push(49u8);
    let ghost head = out@;
    let mut i: usize = 0;
    while i < data.len()
        invariant
            i <= data@.len(),
            all_5bit(data@),
            cs@ == charset(),
            out@ == head + data@.take(i as int).map_values(|d: u8| charset()[d as int]),
        decreases data@.len() - i,
    {
        out.push(cs[data[i] as usize]);
        proof {
            assert(data@.take(i + 1).map_values(|d: u8| charset()[d as int]) =~= data@.take(
                i as int,
            ).map_values(|d: u8| charset()[d as int]).push(charset()[data@[i as int] as int]));
        }
        i = i + 1;
    }
    proof {
        assert(data@.take(data@.len() as int) =~= data@);
    }
    let ghost mid = out@;
    let mut k: u32 = 0;
    while k < 6
        invariant
            k <= 6,
            cs@ == charset(),
            out@ == mid + checksum_symbols(checksum).take(k as int).map_values(
                |d: u8| charset()[d as int],
            ),
        decreases 6 - k,
    {
        let sh: u32 = 5 * (5 - k);
        proof {
            assert(((checksum >> sh) & 31u32) < 32) by (bit_vector);
        }
        let c = ((checksum >> sh) & 31u32) as usize;
        out.push(cs[c]);
        proof {
            assert(checksum_symbols(checksum).take(k + 1).map_values(|d: u8| charset()[d as int])
                =~= checksum_symbols(checksum).take(k as int).map_values(
                |d: u8| charset()[d as int],
            ).push(charset()[c as int]));
        }
        k = k + 1;
    }
    proof {
        assert(checksum_symbols(checksum).take(6) =~= checksum_symbols(checksum));
        assert(out@ =~= encode_spec(hrp@, data@));
    }
    out
}

/// Whether `b` is an ASCII uppercase letter.
pub open spec fn is_upper(b: u8) -> bool {
    65 <= b <= 90
}

/// Whether `b` is an ASCII lowercase letter.
pub open spec fn is_lower(b: u8) -> bool {
    97 <= b <= 122
}

/// ASCII lowercasing of bytes.
pub open spec fn lower_bytes(s: Seq<u8>) -> Seq<u8> {
    s.map_values(|b: u8| if is_upper(b) { (b + 32) as u8 } else { b })
}

/// Position of `c` in the charset, if any.
pub open spec fn charset_pos(c: u8) -> Option<u8> {
    if exists|i: int| 0 <= i < 32 && charset()[i] == c {
        Some((choose|i: int| 0 <= i < 32 && charset()[i] == c) as u8)
    } else {
        None
    }
}

/// Index of the last `1` byte.
pub open spec fn last_one(s: Seq<u8>) -> Option<int> {
    if exists|i: int| 0 <= i < s.len() && s[i] == 49 {
        Some(choose|i: int| 0 <= i < s.len() && s[i] == 49 && forall|j: int| i < j < s.len() ==> s[j] != 49)
    } else {
        None
    }
}

/// Bech32m decoding of string bytes into `(hrp, 5-bit data without checksum)`.
#[verifier::opaque]
pub open spec fn decode_spec(addr: Seq<u8>) -> Option<(Seq<u8>, Seq<u8>)> {
    let mixed = (exists|i: int| 0 <= i < addr.len() && is_upper(addr[i])) && (exists|i: int|
        0 <= i < addr.len() && is_lower(addr[i]));
    let low = lower_bytes(addr);
    if mixed {
        None
    } else {
        match last_one(low) {
            None => None,
            Some(p) => {
                let hrp = low.take(p);
                let data = low.skip(p + 1);
                if hrp.len() == 0 || data.len() < 6 {
                    None
                } else if exists|i: int| 0 <= i < data.len() && charset_pos(data[i]) is None {
                    None
                } else {
                    let values = data.map_values(|c: u8| charset_pos(c)->0);
                    if polymod_spec(hrp_expand_spec(hrp) + values) != BECH32M_CONST {
                        None
                    } else {
                        Some((hrp, values.take(values.len() - 6)))
                    }
                }
            },
        }
    }
}

fn find_charset(cs: &[u8; 32], c: u8) -> (r: Option<u8>)
    requires
        cs@ == charset(),
    ensures
        r == charset_pos(c),
{
    let mut i: usize = 0;
    while i < 32
        invariant
            i <= 32,
            cs@ == charset(),
            forall|j: int| 0 <= j < i ==> charset()[j] != c,
        decreases 32 - i,
    {
        if cs[i] == c {
            proof {
                lemma_charset_injective();
                assert(charset()[i as int] == c);
                let w = choose|j: int| 0 <= j < 32 && charset()[j] == c;
                assert(w == i);
            }
            return Some(i as u8);
        }
        i = i + 1;
    }
    None
}

/// The charset has 32 distinct symbols.
pub proof fn lemma_charset_injective()
    ensures
        forall|i: int, j: int| 0 <= i < 32 && 0 <= j < 32 && charset()[i] == charset()[j] ==> i == j,
{
    assert forall|i: int, j: int| 0 <= i < 32 && 0 <= j < 32 && charset()[i] == charset()[j] implies i
        == j by {
        assert(charset()[0] == 113u8);
    }
}

/// ASCII-lowercased bytes and whether both cases occur.
fn lower_and_mixed(addr: &[u8]) -> (r: (Vec<u8>, bool))
    ensures
        r.0@ == lower_bytes(addr@),
        r.1 == ((exists|i: int| 0 <= i < addr@.len() && is_upper(addr@[i])) && (exists|i: int|
            0 <= i < addr@.len() && is_lower(addr@[i]))),
{
    let mut has_upper = false;
    let mut has_lower = false;
    let mut low: Vec<u8> = Vec::new();
    let mut i: usize = 0;
    while i < addr.len()
        invariant
            i <= addr@.len(),
            has_upper == exists|j: int| 0 <= j < i && is_upper(addr@[j]),
            has_lower == exists|j: int| 0 <= j < i && is_lower(addr@[j]),
            low@ == lower_bytes(addr@.take(i as int)),
        decreases addr@.len() - i,
    {
        let b = addr[i];
        if 65 <= b && b <= 90 {
            has_upper = true;
            low.push(b + 32);
        } else {
            if 97 <= b && b <= 122 {
                has_lower = true;
            }
            low.push(b);
        }
        proof {
            assert(lower_bytes(addr@.take(i + 1)) =~= lower_bytes(addr@.take(i as int)).push(
                if is_upper(b) { (b + 32) as u8 } else { b },
            ));
        }
        i = i + 1;
    }
    proof {
        assert(addr@.take(addr@.len() as int) =~= addr@);
    }
    (low, has_upper && has_lower)
}

/// Index of the last `1` byte.
fn find_last_one(s: &[u8]) -> (r: Option<usize>)
    ensures
        match r {
            Some(p) => p < s@.len() && last_one(s@) == Some(p as int),
            None => last_one(s@) is None,
        },
{
    let mut k: usize = s.len();
    while k > 0
        invariant
            k <= s@.len(),
            forall|j: int| k <= j < s@.len() ==> s@[j] != 49,
        decreases k,
    {
        if s[k - 1] == 49u8 {
            proof {
                let p = (k - 1) as int;
                assert(s@[p] == 49);
                let w = choose|i: int|
                    0 <= i < s@.len() && s@[i] == 49 && forall|j: int| i < j < s@.len() ==> s@[j]
                        != 49;
                assert(w == p);
            }
            return Some(k - 1);
        }
        k = k - 1;
    }
    None
}

/// Charset positions of `s[start..]`, or `None` if a byte is not in the charset.
fn charset_values(s: &[u8], start: usize) -> (r: Option<Vec<u8>>)
    requires
        start <= s@.len(),
    ensures
        match r {
            Some(v) => (forall|i: int| 0 <= i < s@.skip(start as int).len() ==> charset_pos(
                #[trigger] s@.skip(start as int)[i],
            ) is Some) && v@ == s@.skip(start as int).map_values(|c: u8| charset_pos(c)->0),
            None => exists|i: int| 0 <= i < s@.skip(start as int).len() && charset_pos(
                #[trigger] s@.skip(start as int)[i],
            ) is None,
        },
{
    let cs = charset_exec();
    let ghost data = s@.skip(start as int);
    let mut values: Vec<u8> = Vec::new();
    let mut j: usize = start;
    while j < s.len()
        invariant
            start <= j <= s@.len(),
            cs@ == charset(),
            data == s@.skip(start as int),
            values@ == data.take(j - start).map_values(|c: u8| charset_pos(c)->0),
            forall|t: int| 0 <= t < j - start ==> charset_pos(#[trigger] data[t]) is Some,
        decreases s@.len() - j,
    {
        let v = find_charset(&cs, s[j]);
        match v {
            None => {
                proof {
                    assert(data[j - start] == s@[j as int]);
                    assert(charset_pos(data[j - start]) is None);
                }
                return None;
            },
            Some(x) => {
                values.push(x);
                proof {
                    assert(data[j - start] == s@[j as int]);
                    assert(data.take(j + 1 - start).map_values(|c: u8| charset_pos(c)->0)
                        =~= data.take(j - start).map_values(|c: u8| charset_pos(c)->0).push(x));
                }
            },
        }
        j = j + 1;
    }
    proof {
        assert(data.take(data.len() as int) =~= data);
    }
    Some(values)
}

/// The first `n` bytes of `v`.
fn prefix_of(v: &[u8], n: usize) -> (r: Vec<u8>)
    requires
        n <= v@.len(),
    ensures
        r@ == v@.take(n as int),
{
    let mut out: Vec<u8> = Vec::new();
    let mut t: usize = 0;
    while t < n
        invariant
            t <= n <= v@.len(),
            out@ == v@.take(t as int),
        decreases n - t,
    {
        out.push(v[t]);
        proof {
            assert(v@.take(t + 1) =~= v@.take(t as int).push(v@[t as int]));
        }
        t = t + 1;
    }
    out
}

fn decode(addr: &[u8]) -> (r: Option<(Vec<u8>, Vec<u8>)>)
    ensures
        match r {
            Some((h, d)) => decode_spec(addr@) == Some((h@, d@)),
            None => decode_spec(addr@) is None,
        },
{
    proof {
        reveal(decode_spec);
    }
    let (low, mixed) = lower_and_mixed(addr);
    if mixed {
        return None;
    }
    let p = match find_last_one(low.as_slice()) {
        None => {
            return None;
        },
        Some(p) => p,
    };
    if p == 0 || low.len() - (p + 1) < 6 {
        return None;
    }
    let values = match charset_values(low.as_slice(), p + 1) {
        None => {
            return None;
        },
        Some(v) => v,
    };
    let hrp = prefix_of(low.as_slice(), p);
    let mut check_vals = hrp_expand(hrp.as_slice());
    push_all(&mut check_vals, values.as_slice());
    if polymod(check_vals.as_slice()) != BECH32M_CONST {
        return None;
    }
    let dp = prefix_of(values.as_slice(), values.len() - 6);
    Some((hrp, dp))
}

/// Bech32m bytes of the 32-byte payload prefix of a 512-bit digest.
pub open spec fn spec_encode_hash(h: Seq<u8>) -> Seq<u8> {
    encode_spec(hrp_hsn(), convert_bits_spec(h.take(32), 8, 5, true)->0)
}

proof fn lemma_cb_5bit(data: Seq<u8>)
    ensures
        all_5bit(cb_state(data, 8, 5).2),
        cb_state(data, 8, 5).1 < 5,
    decreases data.len(),
{
    if data.len() > 0 {
        lemma_cb_5bit(data.drop_last());
        let (acc, bits, ret, ok) = cb_state(data.drop_last(), 8, 5);
        if ok && ((data.last() as u32) >> 8u32) == 0 {
            let acc2 = (acc << 8u32) | (data.last() as u32);
            lemma_emit_5bit(acc2, (bits + 8) as u32, ret);
        }
    }
}

proof fn lemma_emit_5bit(acc: u32, bits: u32, ret: Seq<u8>)
    requires
        all_5bit(ret),
    ensures
        all_5bit(cb_emit(acc, bits, 5, ret).1),
        cb_emit(acc, bits, 5, ret).0 < 5,
    decreases bits,
{
    if bits >= 5 {
        let x = ((acc >> ((bits - 5) as u32)) & (((1u32 << 5u32) - 1) as u32)) as u8;
        assert(((1u32 << 5u32) - 1) as u32 == 31) by (bit_vector);
        assert((acc >> ((bits - 5) as u32)) & 31u32 < 32) by (bit_vector);
        lemma_emit_5bit(acc, (bits - 5) as u32, ret.push(x));
    }
}

/// Regrouping bytes into 5-bit groups with padding never fails.
proof fn lemma_cb_8_5_ok(data: Seq<u8>)
    ensures
        cb_state(data, 8, 5).3,
    decreases data.len(),
{
    if data.len() > 0 {
        lemma_cb_8_5_ok(data.drop_last());
        let v = data.last();
        assert((v as u32) >> 8u32 == 0) by (bit_vector)
            requires
                v < 256,
        ;
    }
}

/// The bech32m bytes of `encode_hash`, built internally.
fn encode_hash_bytes(h: &crate::hash::Hash) -> (r: Vec<u8>)
    ensures
        r@ == spec_encode_hash(h@),
        all_ascii(r@),
{
    let mut payload: Vec<u8> = Vec::new();
    let mut i: usize = 0;
    while i < ADDRESS_PAYLOAD_LEN
        invariant
            i <= 32,
            h@.len() == 64,
            payload@ == h@.take(i as int),
        decreases 32 - i,
    {
        payload.push(h.0[i]);
        proof {
            assert(h@.take(i + 1) =~= h@.take(i as int).push(h@[i as int]));
        }
        i = i + 1;
    }
    proof {
        lemma_cb_8_5_ok(payload@);
        lemma_cb_5bit(payload@);
    }
    let data = convert_bits(payload.as_slice(), 8, 5, true);
    match data {
        Some(d) => {
            proof {
                let (acc, bits, ret, ok) = cb_state(payload@, 8, 5);
                if bits > 0 {
                    assert(((1u32 << 5u32) - 1) as u32 == 31) by (bit_vector);
                    assert((acc << ((5 - bits) as u32)) & 31u32 < 32) by (bit_vector);
                }
                assert(all_5bit(d@));
            }
            let hrp: [u8; 3] = [104u8, 115u8, 110u8];
            proof {
                assert(hrp@ =~= hrp_hsn());
            }
            let out = encode(hrp.as_slice(), d.as_slice());
            proof {
                lemma_encode_ascii(hrp_hsn(), d@);
            }
            out
        },
        None => {
            proof {
                assert(false);
            }
            Vec::new()
        },
    }
}

/// Encoded bytes are ASCII when the HRP is.
proof fn lemma_encode_ascii(hrp: Seq<u8>, data: Seq<u8>)
    requires
        all_ascii(hrp),
        all_5bit(data),
    ensures
        all_ascii(encode_spec(hrp, data)),
{
    let chk = polymod_spec(hrp_expand_spec(hrp) + data + seq![0u8, 0u8, 0u8, 0u8, 0u8, 0u8])
        ^ BECH32M_CONST;
    let cs = checksum_symbols(chk);
    assert forall|i: int| 0 <= i < 6 implies cs[i] < 32 by {
        let sh = (5 * (5 - i)) as u32;
        assert((chk >> sh) & 31u32 < 32) by (bit_vector);
    }
    let e = encode_spec(hrp, data);
    assert forall|i: int| 0 <= i < e.len() implies e[i] < 128 by {
        if i >= hrp.len() + 1 + data.len() {
            let k = i - (hrp.len() + 1 + data.len());
            assert(cs[k] < 32);
        } else if i > hrp.len() {
            let k = i - (hrp.len() + 1);
            assert(data[k] < 32);
        }
    }
}

/// Encode a full 512-bit address digest as `hsn1…` (first 32 bytes).
pub fn encode_hash(h: &crate::hash::Hash) -> (r: String)
    ensures
        r@ == ascii_chars(spec_encode_hash(h@)),
{
    let b = encode_hash_bytes(h);
    string_from_ascii(b)
}

/// Encode a public key as its canonical `hsn1…` bech32m address.
pub fn encode_address(pubkey: &[u8]) -> (r: String)
    ensures
        r@ == ascii_chars(spec_encode_hash(spec_address_hash(pubkey@))),
{
    let h = address_hash(pubkey);
    encode_hash(&h)
}

/// Legacy `hsn:<128 hex>` bytes of a digest.
pub open spec fn spec_legacy_hex(h: Seq<u8>) -> Seq<u8> {
    legacy_prefix() + hex_encode_spec(h)
}

fn legacy_hex_bytes(h: &crate::hash::Hash) -> (r: Vec<u8>)
    ensures
        r@ == spec_legacy_hex(h@),
{
    let mut out: Vec<u8> = vec![104u8, 115u8, 110u8, 58u8];
    let hx = hex_encode_bytes(h.as_slice());
    push_all(&mut out, hx.as_slice());
    proof {
        assert(out@ =~= spec_legacy_hex(h@));
    }
    out
}

/// Legacy display / dual-accept form: `hsn:` + 128 lowercase hex digits.
pub fn encode_legacy_hex(h: &crate::hash::Hash) -> (r: String)
    ensures
        r@ == ascii_chars(spec_legacy_hex(h@)),
{
    let b = legacy_hex_bytes(h);
    proof {
        crate::bytes::lemma_hex_encode_ascii(h@);
        assert(all_ascii(b@)) by {
            assert forall|i: int| 0 <= i < b@.len() implies b@[i] < 128 by {
                if i >= 4 {
                    assert(b@[i] == hex_encode_spec(h@)[i - 4]);
                }
            }
        }
    }
    string_from_ascii(b)
}

/// The 32-byte payload of a bech32m `hsn1…` address.
pub open spec fn spec_decode_address(addr: Seq<u8>) -> Option<Seq<u8>> {
    match decode_spec(addr) {
        None => None,
        Some((hrp, data5)) => if hrp != hrp_hsn() {
            None
        } else {
            match convert_bits_spec(data5, 5, 8, false) {
                None => None,
                Some(b) => if b.len() != 32 {
                    None
                } else {
                    Some(b)
                },
            }
        },
    }
}

fn decode_address_bytes(addr: &[u8]) -> (r: Option<[u8; 32]>)
    ensures
        match r {
            Some(p) => spec_decode_address(addr@) == Some(p@),
            None => spec_decode_address(addr@) is None,
        },
{
    let d = decode(addr);
    match d {
        None => None,
        Some((hrp, data5)) => {
            let hsn: [u8; 3] = [104u8, 115u8, 110u8];
            proof {
                assert(hsn@ =~= hrp_hsn());
            }
            if !bytes_eq(hrp.as_slice(), hsn.as_slice()) {
                return None;
            }
            let bytes = convert_bits(data5.as_slice(), 5, 8, false);
            match bytes {
                None => None,
                Some(b) => {
                    if b.len() != 32 {
                        return None;
                    }
                    let mut out = [0u8; 32];
                    let mut i: usize = 0;
                    while i < 32
                        invariant
                            i <= 32,
                            b@.len() == 32,
                            forall|j: int| 0 <= j < i ==> out@[j] == b@[j],
                        decreases 32 - i,
                    {
                        out[i] = b[i];
                        i = i + 1;
                    }
                    proof {
                        assert(out@ =~= b@);
                    }
                    Some(out)
                },
            }
        },
    }
}

/// Decode `hsn1…` to the 32-byte payload (prefix of the address digest).
pub fn decode_address(addr: &str) -> (r: Option<[u8; 32]>)
    ensures
        match r {
            Some(p) => spec_decode_address(addr.spec_bytes()) == Some(p@),
            None => spec_decode_address(addr.spec_bytes()) is None,
        },
{
    decode_address_bytes(addr.as_bytes())
}

/// The 32-byte key fingerprint named by an address string: the bech32m
/// payload, or the first 32 bytes of a legacy `hsn:` + 128-hex-digit digest.
pub open spec fn spec_fingerprint(addr: Seq<u8>) -> Option<Seq<u8>> {
    match spec_decode_address(addr) {
        Some(p) => Some(p),
        None => if addr.len() >= 4 && addr.take(4) == legacy_prefix() && addr.len() - 4 == 128 {
            match hex_decode_spec(addr.skip(4)) {
                Some(b) => if b.len() == 64 {
                    Some(b.take(32))
                } else {
                    None
                },
                None => None,
            }
        } else {
            None
        },
    }
}

fn fingerprint_bytes(addr: &[u8]) -> (r: Option<Vec<u8>>)
    ensures
        match r {
            Some(f) => spec_fingerprint(addr@) == Some(f@),
            None => spec_fingerprint(addr@) is None,
        },
{
    match decode_address_bytes(addr) {
        Some(p) => {
            let mut v: Vec<u8> = Vec::new();
            push_all(&mut v, p.as_slice());
            return Some(v);
        },
        None => {},
    }
    if addr.len() < 4 || addr.len() - 4 != 128 {
        return None;
    }
    let pre: [u8; 4] = [104u8, 115u8, 110u8, 58u8];
    let mut head: Vec<u8> = Vec::new();
    let mut rest: Vec<u8> = Vec::new();
    let mut i: usize = 0;
    while i < addr.len()
        invariant
            4 <= addr@.len(),
            i <= addr@.len(),
            head@ == addr@.take(if i < 4 { i as int } else { 4 }),
            rest@ == (if i <= 4 { Seq::<u8>::empty() } else { addr@.subrange(4, i as int) }),
        decreases addr@.len() - i,
    {
        if i < 4 {
            head.push(addr[i]);
            proof {
                assert(addr@.take(i + 1) =~= addr@.take(i as int).push(addr@[i as int]));
            }
        } else {
            rest.push(addr[i]);
            proof {
                if i == 4 {
                    assert(addr@.subrange(4, 5) =~= seq![addr@[4]]);
                } else {
                    assert(addr@.subrange(4, i + 1) =~= addr@.subrange(4, i as int).push(
                        addr@[i as int],
                    ));
                }
            }
        }
        i = i + 1;
    }
    proof {
        assert(pre@ =~= legacy_prefix());
        assert(addr@.subrange(4, addr@.len() as int) =~= addr@.skip(4));
    }
    if !bytes_eq(head.as_slice(), pre.as_slice()) {
        return None;
    }
    match hex_decode(rest.as_slice()) {
        None => None,
        Some(b) => {
            if b.len() != 64 {
                return None;
            }
            let mut out: Vec<u8> = Vec::new();
            let mut j: usize = 0;
            while j < 32
                invariant
                    j <= 32,
                    b@.len() == 64,
                    out@ == b@.take(j as int),
                decreases 32 - j,
            {
                out.push(b[j]);
                proof {
                    assert(b@.take(j + 1) =~= b@.take(j as int).push(b@[j as int]));
                }
                j = j + 1;
            }
            Some(out)
        },
    }
}

/// 32-byte fingerprint shared by the bech32m and legacy hex forms of one key.
pub fn address_fingerprint(addr: &str) -> (r: Option<[u8; 32]>)
    ensures
        match r {
            Some(f) => spec_fingerprint(addr.spec_bytes()) == Some(f@),
            None => spec_fingerprint(addr.spec_bytes()) is None,
        },
{
    match fingerprint_bytes(addr.as_bytes()) {
        None => None,
        Some(v) => {
            proof {
                assert(v@.len() == 32);
            }
            let mut out = [0u8; 32];
            let mut i: usize = 0;
            while i < 32
                invariant
                    i <= 32,
                    v@.len() == 32,
                    forall|j: int| 0 <= j < i ==> out@[j] == v@[j],
                decreases 32 - i,
            {
                out[i] = v[i];
                i = i + 1;
            }
            proof {
                assert(out@ =~= v@);
            }
            Some(out)
        },
    }
}

/// Both strings name the same key fingerprint (identical, or cross-format).
pub open spec fn spec_equivalent(a: Seq<u8>, b: Seq<u8>) -> bool {
    a == b || (spec_fingerprint(a) is Some && spec_fingerprint(a) == spec_fingerprint(b))
}

fn equivalent_bytes(a: &[u8], b: &[u8]) -> (r: bool)
    ensures
        r == spec_equivalent(a@, b@),
{
    if bytes_eq(a, b) {
        return true;
    }
    match (fingerprint_bytes(a), fingerprint_bytes(b)) {
        (Some(fa), Some(fb)) => bytes_eq(fa.as_slice(), fb.as_slice()),
        _ => false,
    }
}

/// True when both strings name the same key fingerprint (exact or cross-format).
pub fn addresses_equivalent(a: &str, b: &str) -> (r: bool)
    ensures
        r == spec_equivalent(a.spec_bytes(), b.spec_bytes()),
{
    equivalent_bytes(a.as_bytes(), b.as_bytes())
}

/// `addr` is the bech32m or legacy encoding of `pubkey`'s address digest.
pub open spec fn spec_matches_pubkey(addr: Seq<u8>, pubkey: Seq<u8>) -> bool {
    let h = spec_address_hash(pubkey);
    spec_equivalent(addr, spec_encode_hash(h)) || spec_equivalent(addr, spec_legacy_hex(h))
}

/// True when `addr` is the bech32m or legacy encoding of `pubkey`.
pub fn address_matches_pubkey(addr: &str, pubkey: &[u8]) -> (r: bool)
    ensures
        r == spec_matches_pubkey(addr.spec_bytes(), pubkey@),
{
    let h = address_hash(pubkey);
    let a = addr.as_bytes();
    let e = encode_hash_bytes(&h);
    if equivalent_bytes(a, e.as_slice()) {
        return true;
    }
    let l = legacy_hex_bytes(&h);
    equivalent_bytes(a, l.as_slice())
}

/// Whether `addr` decodes as a bech32m `hsn1…` address.
pub fn is_bech32m_address(addr: &str) -> (r: bool)
    ensures
        r == spec_decode_address(addr.spec_bytes()) is Some,
{
    decode_address_bytes(addr.as_bytes()).is_some()
}

/// Legacy hex or bech32m.
pub open spec fn spec_valid_address(addr: Seq<u8>) -> bool {
    spec_decode_address(addr) is Some || (addr.len() >= 4 && addr.take(4) == legacy_prefix()
        && addr.len() - 4 == 128 && (hex_decode_spec(addr.skip(4)) matches Some(b) && b.len() == 64))
}

/// An address is never empty.
pub proof fn lemma_valid_address_nonempty(a: Seq<u8>)
    ensures
        spec_valid_address(a) ==> a.len() > 0,
{
    reveal(decode_spec);
    if a.len() == 0 {
        assert(last_one(lower_bytes(a)) is None);
    }
}

/// Whether `addr` is a bech32m address or a legacy `hsn:` + 128-hex-digit digest.
pub fn is_valid_hassan_address(addr: &str) -> (r: bool)
    ensures
        r == spec_valid_address(addr.spec_bytes()),
{
    let a = addr.as_bytes();
    let fp = fingerprint_bytes(a);
    proof {
        if spec_decode_address(a@) is None && a@.len() >= 4 && a@.take(4) == legacy_prefix()
            && a@.len() - 4 == 128 {
            if let Some(b) = hex_decode_spec(a@.skip(4)) {
                if b.len() == 64 {
                    assert(spec_fingerprint(a@) is Some);
                }
            }
        }
    }
    fp.is_some()
}


/// Six checksum steps from `s` over `c0..c5`.
pub open spec fn steps6(s: u32, c0: u8, c1: u8, c2: u8, c3: u8, c4: u8, c5: u8) -> u32 {
    polymod_step(polymod_step(polymod_step(polymod_step(polymod_step(polymod_step(s, c0), c1), c2), c3), c4), c5)
}

proof fn lemma_polymod_six(v: Seq<u8>, c0: u8, c1: u8, c2: u8, c3: u8, c4: u8, c5: u8)
    ensures
        polymod_spec(v + seq![c0, c1, c2, c3, c4, c5]) == steps6(polymod_spec(v), c0, c1, c2, c3, c4, c5),
{
    let w1 = v + seq![c0];
    let w2 = v + seq![c0, c1];
    let w3 = v + seq![c0, c1, c2];
    let w4 = v + seq![c0, c1, c2, c3];
    let w5 = v + seq![c0, c1, c2, c3, c4];
    let w6 = v + seq![c0, c1, c2, c3, c4, c5];
    assert(w1.drop_last() =~= v && w1.last() == c0);
    assert(w2.drop_last() =~= w1 && w2.last() == c1);
    assert(w3.drop_last() =~= w2 && w3.last() == c2);
    assert(w4.drop_last() =~= w3 && w4.last() == c3);
    assert(w5.drop_last() =~= w4 && w5.last() == c4);
    assert(w6.drop_last() =~= w5 && w6.last() == c5);
    assert(polymod_spec(w1) == polymod_step(polymod_spec(v), c0));
    assert(polymod_spec(w2) == polymod_step(polymod_spec(w1), c1));
    assert(polymod_spec(w3) == polymod_step(polymod_spec(w2), c2));
    assert(polymod_spec(w4) == polymod_step(polymod_spec(w3), c3));
    assert(polymod_spec(w5) == polymod_step(polymod_spec(w4), c4));
    assert(polymod_spec(w6) == polymod_step(polymod_spec(w5), c5));
}

proof fn lemma_polymod_bound(v: Seq<u8>)
    ensures
        polymod_spec(v) < 0x4000_0000,
    decreases v.len(),
{
    if v.len() > 0 {
        let c = polymod_spec(v.drop_last());
        let x = v.last();
        assert(polymod_step(c, x) < 0x4000_0000) by (bit_vector);
    }
}

/// The checksum symbols make the checksum polynomial come out at the
/// bech32m constant.
proof fn lemma_checksum_closes(s: u32)
    requires
        s < 0x4000_0000,
    ensures
        ({
            let chk = steps6(s, 0, 0, 0, 0, 0, 0) ^ BECH32M_CONST;
            let c = checksum_symbols(chk);
            steps6(s, c[0], c[1], c[2], c[3], c[4], c[5]) == BECH32M_CONST
        }),
{
    let chk = steps6(s, 0, 0, 0, 0, 0, 0) ^ BECH32M_CONST;
    let c = checksum_symbols(chk);
    assert(c[0] == ((chk >> 25u32) & 31u32) as u8);
    assert(c[1] == ((chk >> 20u32) & 31u32) as u8);
    assert(c[2] == ((chk >> 15u32) & 31u32) as u8);
    assert(c[3] == ((chk >> 10u32) & 31u32) as u8);
    assert(c[4] == ((chk >> 5u32) & 31u32) as u8);
    assert(c[5] == ((chk >> 0u32) & 31u32) as u8);
    assert(steps6(s, ((chk >> 25u32) & 31u32) as u8, ((chk >> 20u32) & 31u32) as u8, ((chk >> 15u32) & 31u32) as u8,
        ((chk >> 10u32) & 31u32) as u8, ((chk >> 5u32) & 31u32) as u8, ((chk >> 0u32) & 31u32) as u8) == BECH32M_CONST) by (bit_vector)
        requires
            s < 0x4000_0000,
            chk == steps6(s, 0, 0, 0, 0, 0, 0) ^ BECH32M_CONST,
    ;
}

proof fn lemma_charset_plain()
    ensures
        forall|i: int| 0 <= i < 32 ==> !is_upper(#[trigger] charset()[i]) && charset()[i] != 49u8,
{
    assert forall|i: int| 0 <= i < 32 implies !is_upper(#[trigger] charset()[i]) && charset()[i] != 49u8 by {
        assert(charset()[0] == 113u8);
    }
}

proof fn lemma_charset_pos_of(x: u8)
    requires
        x < 32,
    ensures
        charset_pos(charset()[x as int]) == Some(x),
{
    lemma_charset_injective();
    let c = charset()[x as int];
    assert(exists|i: int| 0 <= i < 32 && charset()[i] == c);
    let w = choose|i: int| 0 <= i < 32 && charset()[i] == c;
    assert(w == x as int);
}

/// Decoding an encoded string gives back its human-readable part and data.
proof fn lemma_decode_encode(d: Seq<u8>)
    requires
        all_5bit(d),
    ensures
        decode_spec(encode_spec(hrp_hsn(), d)) == Some((hrp_hsn(), d)),
{
    reveal(decode_spec);
    let hrp = hrp_hsn();
    let v0 = hrp_expand_spec(hrp) + d;
    let zeros = seq![0u8, 0u8, 0u8, 0u8, 0u8, 0u8];
    let chk = polymod_spec(v0 + zeros) ^ BECH32M_CONST;
    let c = checksum_symbols(chk);
    let dm = d.map_values(|x: u8| charset()[x as int]);
    let cm = c.map_values(|x: u8| charset()[x as int]);
    let e = encode_spec(hrp, d);
    assert(e == hrp + seq![49u8] + dm + cm);
    lemma_charset_plain();
    assert forall|k: int| 0 <= k < 6 implies #[trigger] c[k] < 32 by {
        let sh = (5 * (5 - k)) as u32;
        assert((chk >> sh) & 31u32 < 32) by (bit_vector);
    }
    let n = d.len();
    assert(e.len() == 4 + n + 6);
    assert forall|j: int| 4 <= j < e.len() implies #[trigger] e[j] == if j < 4 + n {
        charset()[d[j - 4] as int]
    } else {
        charset()[c[j - 4 - n] as int]
    } by {
        if j < 4 + n {
            assert(e[j] == dm[j - 4]);
        } else {
            assert(e[j] == cm[j - 4 - n]);
        }
    }
    assert forall|j: int| 0 <= j < e.len() implies !is_upper(#[trigger] e[j]) && (e[j] == 49u8 <==> j == 3) by {
        if j < 3 {
            assert(e[j] == hrp[j]);
        } else if j == 3 {
        } else if j < 4 + n {
            assert(d[j - 4] < 32);
            assert(!is_upper(charset()[d[j - 4] as int]) && charset()[d[j - 4] as int] != 49u8);
        } else {
            assert(c[j - 4 - n] < 32);
            assert(!is_upper(charset()[c[j - 4 - n] as int]) && charset()[c[j - 4 - n] as int] != 49u8);
        }
    }
    assert(!(exists|i: int| 0 <= i < e.len() && is_upper(e[i])));
    let low = lower_bytes(e);
    assert(low =~= e);
    assert(e[3] == 49u8);
    let p = choose|i: int| 0 <= i < low.len() && low[i] == 49 && forall|j: int| i < j < low.len() ==> low[j] != 49;
    assert(0 <= 3 < low.len() && low[3] == 49 && forall|j: int| 3 < j < low.len() ==> low[j] != 49);
    assert(p == 3) by {
        if p < 3 {
            assert(low[3] != 49);
        }
        if p > 3 {
            assert(low[p] != 49);
        }
    }
    assert(last_one(low) == Some(3int));
    let data = low.skip(4);
    assert(low.take(3) =~= hrp);
    assert(data =~= dm + cm);
    assert forall|i: int| 0 <= i < data.len() implies #[trigger] charset_pos(data[i]) == Some(
        if i < n { d[i] } else { c[i - n] },
    ) by {
        if i < n {
            assert(data[i] == e[i + 4]);
            lemma_charset_pos_of(d[i]);
        } else {
            assert(data[i] == e[i + 4]);
            lemma_charset_pos_of(c[i - n]);
        }
    }
    assert(!(exists|i: int| 0 <= i < data.len() && charset_pos(data[i]) is None));
    let values = data.map_values(|x: u8| charset_pos(x)->0);
    assert(values =~= d + c);
    lemma_polymod_six(v0, 0, 0, 0, 0, 0, 0);
    lemma_polymod_six(v0, c[0], c[1], c[2], c[3], c[4], c[5]);
    lemma_polymod_bound(v0);
    lemma_checksum_closes(polymod_spec(v0));
    assert(c =~= seq![c[0], c[1], c[2], c[3], c[4], c[5]]);
    assert(hrp_expand_spec(hrp) + values =~= v0 + seq![c[0], c[1], c[2], c[3], c[4], c[5]]);
    assert(values.take(values.len() - 6) =~= d);
}

/// `2^n` for the small exponents of bit regrouping.
pub open spec fn p2(n: nat) -> nat
    decreases n,
{
    if n == 0 {
        1
    } else {
        2 * p2((n - 1) as nat)
    }
}

/// Big-endian value of `s` as digits in base `base`.
pub open spec fn digits_value(s: Seq<u8>, base: nat) -> nat
    decreases s.len(),
{
    if s.len() == 0 {
        0
    } else {
        digits_value(s.drop_last(), base) * base + (s.last() as nat)
    }
}

proof fn lemma_p2_values()
    ensures
        p2(0) == 1, p2(1) == 2, p2(2) == 4, p2(3) == 8, p2(4) == 16, p2(5) == 32, p2(6) == 64,
        p2(7) == 128, p2(8) == 256, p2(9) == 512, p2(10) == 1024, p2(11) == 2048, p2(12) == 4096,
{
    reveal_with_fuel(p2, 13);
}

/// Splitting the low `bits` bits of `acc` into the top `to` of them and the rest.
proof fn lemma_split_bits(acc: u32, bits: u32, to: u32)
    requires
        to == 5 || to == 8,
        to <= bits <= 12,
    ensures
        (acc as nat) % p2(bits as nat) == (((acc >> ((bits - to) as u32)) & (if to == 5 { 31u32 } else { 255u32 })) as nat)
            * p2((bits - to) as nat) + (acc as nat) % p2((bits - to) as nat),
{
    lemma_p2_values();
    assert(
            (to == 5u32 && bits == 5u32 ==> (acc % 32u32 == ((acc >> 0u32) & 31u32) * 1u32 + acc % 1u32)) &&
            (to == 5u32 && bits == 6u32 ==> (acc % 64u32 == ((acc >> 1u32) & 31u32) * 2u32 + acc % 2u32)) &&
            (to == 5u32 && bits == 7u32 ==> (acc % 128u32 == ((acc >> 2u32) & 31u32) * 4u32 + acc % 4u32)) &&
            (to == 5u32 && bits == 8u32 ==> (acc % 256u32 == ((acc >> 3u32) & 31u32) * 8u32 + acc % 8u32)) &&
            (to == 5u32 && bits == 9u32 ==> (acc % 512u32 == ((acc >> 4u32) & 31u32) * 16u32 + acc % 16u32)) &&
            (to == 5u32 && bits == 10u32 ==> (acc % 1024u32 == ((acc >> 5u32) & 31u32) * 32u32 + acc % 32u32)) &&
            (to == 5u32 && bits == 11u32 ==> (acc % 2048u32 == ((acc >> 6u32) & 31u32) * 64u32 + acc % 64u32)) &&
            (to == 5u32 && bits == 12u32 ==> (acc % 4096u32 == ((acc >> 7u32) & 31u32) * 128u32 + acc % 128u32)) &&
            (to == 8u32 && bits == 8u32 ==> (acc % 256u32 == ((acc >> 0u32) & 255u32) * 1u32 + acc % 1u32)) &&
            (to == 8u32 && bits == 9u32 ==> (acc % 512u32 == ((acc >> 1u32) & 255u32) * 2u32 + acc % 2u32)) &&
            (to == 8u32 && bits == 10u32 ==> (acc % 1024u32 == ((acc >> 2u32) & 255u32) * 4u32 + acc % 4u32)) &&
            (to == 8u32 && bits == 11u32 ==> (acc % 2048u32 == ((acc >> 3u32) & 255u32) * 8u32 + acc % 8u32)) &&
            (to == 8u32 && bits == 12u32 ==> (acc % 4096u32 == ((acc >> 4u32) & 255u32) * 16u32 + acc % 16u32))
    ) by (bit_vector);
}

/// Shifting a `from`-bit value into the low bits of `acc`.
proof fn lemma_shift_in(acc: u32, x: u32, bits: u32, from: u32)
    requires
        from == 5 || from == 8,
        bits + from <= 12,
        x < p2(from as nat),
    ensures
        (((acc << from) | x) as nat) % p2((bits + from) as nat) == ((acc as nat) % p2(bits as nat)) * p2(from as nat) + x,
{
    lemma_p2_values();
    assert(
            (from == 8u32 && bits == 0u32 ==> (((acc << 8u32) | x) % 256u32 == (acc % 1u32) * 256u32 + x)) &&
            (from == 8u32 && bits == 1u32 ==> (((acc << 8u32) | x) % 512u32 == (acc % 2u32) * 256u32 + x)) &&
            (from == 8u32 && bits == 2u32 ==> (((acc << 8u32) | x) % 1024u32 == (acc % 4u32) * 256u32 + x)) &&
            (from == 8u32 && bits == 3u32 ==> (((acc << 8u32) | x) % 2048u32 == (acc % 8u32) * 256u32 + x)) &&
            (from == 8u32 && bits == 4u32 ==> (((acc << 8u32) | x) % 4096u32 == (acc % 16u32) * 256u32 + x)) &&
            (from == 5u32 && bits == 0u32 ==> (((acc << 5u32) | x) % 32u32 == (acc % 1u32) * 32u32 + x)) &&
            (from == 5u32 && bits == 1u32 ==> (((acc << 5u32) | x) % 64u32 == (acc % 2u32) * 32u32 + x)) &&
            (from == 5u32 && bits == 2u32 ==> (((acc << 5u32) | x) % 128u32 == (acc % 4u32) * 32u32 + x)) &&
            (from == 5u32 && bits == 3u32 ==> (((acc << 5u32) | x) % 256u32 == (acc % 8u32) * 32u32 + x)) &&
            (from == 5u32 && bits == 4u32 ==> (((acc << 5u32) | x) % 512u32 == (acc % 16u32) * 32u32 + x)) &&
            (from == 5u32 && bits == 5u32 ==> (((acc << 5u32) | x) % 1024u32 == (acc % 32u32) * 32u32 + x)) &&
            (from == 5u32 && bits == 6u32 ==> (((acc << 5u32) | x) % 2048u32 == (acc % 64u32) * 32u32 + x)) &&
            (from == 5u32 && bits == 7u32 ==> (((acc << 5u32) | x) % 4096u32 == (acc % 128u32) * 32u32 + x))
    ) by (bit_vector)
        requires
            from == 8u32 ==> x < 256u32,
            from == 5u32 ==> x < 32u32,
    ;
}

proof fn lemma_p2_add(a: nat, b: nat)
    ensures
        p2(a + b) == p2(a) * p2(b),
        p2(a) >= 1,
    decreases a,
{
    if a > 0 {
        lemma_p2_add((a - 1) as nat, b);
        assert(p2(a) == 2 * p2((a - 1) as nat));
        assert(((a - 1) as nat + b) as nat == (a + b - 1) as nat);
        assert(p2(a + b) == 2 * p2((a + b - 1) as nat));
        let x = p2((a - 1) as nat);
        let y = p2(b);
        let z = p2((a + b - 1) as nat);
        assert(z == x * y);
        assert(2 * z == (2 * x) * y) by (nonlinear_arith)
            requires
                z == x * y,
        ;
        assert(p2(a + b) == p2(a) * p2(b));
    } else {
        assert(p2(0) == 1);
        assert(a + b == b);
        assert(p2(a + b) == p2(b));
    }
}

proof fn lemma_emit_val(acc: u32, bits: u32, to: u32, ret: Seq<u8>, base: nat)
    requires
        (to == 5 && base == 32) || (to == 8 && base == 256),
        bits <= 12,
    ensures
        cb_emit(acc, bits, to, ret).0 < to,
        cb_emit(acc, bits, to, ret).0 == bits % to,
        cb_emit(acc, bits, to, ret).1.len() == ret.len() + bits / to,
        digits_value(cb_emit(acc, bits, to, ret).1, base) * p2(cb_emit(acc, bits, to, ret).0 as nat)
            + (acc as nat) % p2(cb_emit(acc, bits, to, ret).0 as nat)
            == digits_value(ret, base) * p2(bits as nat) + (acc as nat) % p2(bits as nat),
    decreases bits,
{
    lemma_p2_values();
    if bits >= to {
        let k = (bits - to) as u32;
        assert(((1u32 << 5u32) - 1) as u32 == 31u32) by (bit_vector);
        assert(((1u32 << 8u32) - 1) as u32 == 255u32) by (bit_vector);
        let m: u32 = if to == 5 { 31u32 } else { 255u32 };
        assert(((1u32 << to) - 1) as u32 == m);
        let gv = (acc >> k) & m;
        assert(gv <= m) by (bit_vector)
            requires
                m == 31u32 || m == 255u32,
                gv == (acc >> k) & m,
        ;
        let g = gv as u8;
        lemma_split_bits(acc, bits, to);
        lemma_emit_val(acc, k, to, ret.push(g), base);
        assert(ret.push(g).drop_last() =~= ret);
        let d = digits_value(ret, base);
        assert(digits_value(ret.push(g), base) == d * base + g);
        lemma_p2_add(k as nat, to as nat);
        assert(p2(to as nat) == base);
        let pk = p2(k as nat);
        assert((d * base + g) * pk == d * (pk * base) + g * pk) by (nonlinear_arith);
    }
}

proof fn lemma_digits_step(dd: nat, d: nat, pb: nat, r: nat, x: nat, base: nat, lhs: nat)
    requires
        dd == d * pb + r,
        lhs == d * (pb * base) + r * base + x,
    ensures
        dd * base + x == lhs,
{
    assert(d * (pb * base) + r * base + x == (d * pb + r) * base + x) by (nonlinear_arith);
}

#[verifier::spinoff_prover]
proof fn lemma_enc_inv(data: Seq<u8>)
    ensures
        cb_state(data, 8, 5).3,
        cb_state(data, 8, 5).1 < 5,
        8 * data.len() == 5 * cb_state(data, 8, 5).2.len() + cb_state(data, 8, 5).1,
        digits_value(data, 256) == digits_value(cb_state(data, 8, 5).2, 32) * p2(cb_state(data, 8, 5).1 as nat)
            + (cb_state(data, 8, 5).0 as nat) % p2(cb_state(data, 8, 5).1 as nat),
    decreases data.len(),
{
    lemma_p2_values();
    let st = cb_state(data, 8, 5);
    if data.len() > 0 {
        lemma_enc_inv(data.drop_last());
        let (acc, bits, ret, ok) = cb_state(data.drop_last(), 8, 5);
        let x = data.last();
        assert((x as u32) >> 8u32 == 0) by (bit_vector)
            requires
                x < 256,
        ;
        let acc2 = (acc << 8u32) | (x as u32);
        let e = cb_emit(acc2, (bits + 8) as u32, 5, ret);
        assert(st == (acc2, e.0, e.1, true));
        let d = digits_value(ret, 32);
        let pb = p2(bits as nat);
        let r = (acc as nat) % pb;
        assert(digits_value(e.1, 32) * p2(e.0 as nat) + (acc2 as nat) % p2(e.0 as nat) == d * (pb * 256) + r * 256 + x) by {
            lemma_shift_in(acc, x as u32, bits, 8);
            lemma_emit_val(acc2, (bits + 8) as u32, 5, ret, 32);
            lemma_p2_add(bits as nat, 8);
            assert(p2((bits + 8) as u32 as nat) == pb * 256);
        }
        assert(digits_value(data, 256) == digits_value(data.drop_last(), 256) * 256 + x);
        lemma_digits_step(digits_value(data.drop_last(), 256), d, pb, r, x as nat, 256,
            digits_value(e.1, 32) * p2(e.0 as nat) + (acc2 as nat) % p2(e.0 as nat));
        assert(e.0 == (bits + 8) % 5 && e.1.len() == ret.len() + (bits + 8) / 5) by {
            lemma_emit_val(acc2, (bits + 8) as u32, 5, ret, 32);
        }
        assert((bits + 8) as int == 5 * ((bits + 8) / 5) + (bits + 8) % 5);
        assert(8 * data.len() == 8 * data.drop_last().len() + 8);
    } else {
        assert(st == (0u32, 0u32, Seq::<u8>::empty(), true));
        assert(digits_value(data, 256) == 0);
        assert(digits_value(Seq::<u8>::empty(), 32) == 0);
    }
}

#[verifier::spinoff_prover]
proof fn lemma_dec_inv(d: Seq<u8>)
    requires
        all_5bit(d),
    ensures
        cb_state(d, 5, 8).3,
        cb_state(d, 5, 8).1 < 8,
        5 * d.len() == 8 * cb_state(d, 5, 8).2.len() + cb_state(d, 5, 8).1,
        digits_value(d, 32) == digits_value(cb_state(d, 5, 8).2, 256) * p2(cb_state(d, 5, 8).1 as nat)
            + (cb_state(d, 5, 8).0 as nat) % p2(cb_state(d, 5, 8).1 as nat),
    decreases d.len(),
{
    lemma_p2_values();
    let st = cb_state(d, 5, 8);
    if d.len() > 0 {
        assert(all_5bit(d.drop_last())) by {
            assert forall|i: int| 0 <= i < d.drop_last().len() implies d.drop_last()[i] < 32 by {
                assert(d.drop_last()[i] == d[i]);
            }
        }
        lemma_dec_inv(d.drop_last());
        let (acc, bits, ret, ok) = cb_state(d.drop_last(), 5, 8);
        let x = d.last();
        assert(x == d[d.len() - 1]);
        assert((x as u32) >> 5u32 == 0) by (bit_vector)
            requires
                x < 32,
        ;
        let acc2 = (acc << 5u32) | (x as u32);
        let e = cb_emit(acc2, (bits + 5) as u32, 8, ret);
        assert(st == (acc2, e.0, e.1, true));
        let dv = digits_value(ret, 256);
        let pb = p2(bits as nat);
        let r = (acc as nat) % pb;
        assert(digits_value(e.1, 256) * p2(e.0 as nat) + (acc2 as nat) % p2(e.0 as nat) == dv * (pb * 32) + r * 32 + x) by {
            lemma_shift_in(acc, x as u32, bits, 5);
            lemma_emit_val(acc2, (bits + 5) as u32, 8, ret, 256);
            lemma_p2_add(bits as nat, 5);
            assert(p2((bits + 5) as u32 as nat) == pb * 32);
        }
        assert(digits_value(d, 32) == digits_value(d.drop_last(), 32) * 32 + x);
        lemma_digits_step(digits_value(d.drop_last(), 32), dv, pb, r, x as nat, 32,
            digits_value(e.1, 256) * p2(e.0 as nat) + (acc2 as nat) % p2(e.0 as nat));
        assert(e.0 == (bits + 5) % 8 && e.1.len() == ret.len() + (bits + 5) / 8) by {
            lemma_emit_val(acc2, (bits + 5) as u32, 8, ret, 256);
        }
        assert((bits + 5) as int == 8 * ((bits + 5) / 8) + (bits + 5) % 8);
        assert(5 * d.len() == 5 * d.drop_last().len() + 5);
    } else {
        assert(st == (0u32, 0u32, Seq::<u8>::empty(), true));
        assert(digits_value(d, 32) == 0);
        assert(digits_value(Seq::<u8>::empty(), 256) == 0);
    }
}

proof fn lemma_pad_value(acc: u32, bits: u32)
    requires
        1 <= bits < 5,
    ensures
        (((acc << ((5 - bits) as u32)) & 31u32) as nat) == ((acc as nat) % p2(bits as nat)) * p2((5 - bits) as nat),
{
    lemma_p2_values();
    assert(
            (bits == 1u32 ==> ((acc << 4u32) & 31u32 == (acc % 2u32) * 16u32)) &&
            (bits == 2u32 ==> ((acc << 3u32) & 31u32 == (acc % 4u32) * 8u32)) &&
            (bits == 3u32 ==> ((acc << 2u32) & 31u32 == (acc % 8u32) * 4u32)) &&
            (bits == 4u32 ==> ((acc << 1u32) & 31u32 == (acc % 16u32) * 2u32))
    ) by (bit_vector);
}

proof fn lemma_zero_tail(acc: u32, bits: u32)
    requires
        bits < 5,
        (acc as nat) % p2(bits as nat) == 0,
    ensures
        (acc << ((8 - bits) as u32)) & 255u32 == 0,
{
    lemma_p2_values();
    assert(
            (bits == 0u32 ==> (acc % 1u32 == 0 ==> (acc << 8u32) & 255u32 == 0)) &&
            (bits == 1u32 ==> (acc % 2u32 == 0 ==> (acc << 7u32) & 255u32 == 0)) &&
            (bits == 2u32 ==> (acc % 4u32 == 0 ==> (acc << 6u32) & 255u32 == 0)) &&
            (bits == 3u32 ==> (acc % 8u32 == 0 ==> (acc << 5u32) & 255u32 == 0)) &&
            (bits == 4u32 ==> (acc % 16u32 == 0 ==> (acc << 4u32) & 255u32 == 0))
    ) by (bit_vector);
}

proof fn lemma_digits_injective(a: Seq<u8>, b: Seq<u8>)
    requires
        a.len() == b.len(),
        digits_value(a, 256) == digits_value(b, 256),
    ensures
        a == b,
    decreases a.len(),
{
    if a.len() > 0 {
        let x = digits_value(a.drop_last(), 256);
        let y = digits_value(b.drop_last(), 256);
        let u = a.last() as nat;
        let v = b.last() as nat;
        assert(x * 256 + u == y * 256 + v);
        assert(x == y && u == v) by (nonlinear_arith)
            requires
                x * 256 + u == y * 256 + v,
                u < 256,
                v < 256,
        ;
        lemma_digits_injective(a.drop_last(), b.drop_last());
        assert(a =~= a.drop_last().push(a.last()));
        assert(b =~= b.drop_last().push(b.last()));
    }
}

/// Regrouping bytes into padded 5-bit groups and back gives the bytes again.
proof fn lemma_regroup_roundtrip(data: Seq<u8>)
    ensures
        convert_bits_spec(data, 8, 5, true) is Some,
        all_5bit(convert_bits_spec(data, 8, 5, true)->0),
        convert_bits_spec(convert_bits_spec(data, 8, 5, true)->0, 5, 8, false) == Some(data),
{
    lemma_p2_values();
    lemma_enc_inv(data);
    lemma_cb_5bit(data);
    let (acc, bits, ret, ok) = cb_state(data, 8, 5);
    assert(((1u32 << 5u32) - 1) as u32 == 31u32) by (bit_vector);
    assert(((1u32 << 8u32) - 1) as u32 == 255u32) by (bit_vector);
    let n = data.len();
    let pad: nat = if bits > 0 { (5 - bits) as nat } else { 0 };
    let f = convert_bits_spec(data, 8, 5, true)->0;
    if bits > 0 {
        let last = ((acc << ((5 - bits) as u32)) & 31u32) as u8;
        assert(((acc << ((5 - bits) as u32)) & 31u32) < 32) by (bit_vector);
        assert(f == ret.push(last));
        assert(f.drop_last() =~= ret && f.last() == last);
        assert(digits_value(f, 32) == digits_value(ret, 32) * 32 + last);
        lemma_pad_value(acc, bits);
        assert(f.drop_last() =~= ret);
        lemma_p2_add(bits as nat, pad);
        let dr = digits_value(ret, 32);
        let pb = p2(bits as nat);
        let pp = p2(pad);
        let r = (acc as nat) % pb;
        assert(pb * pp == 32);
        assert((dr * pb + r) * pp == dr * 32 + r * pp) by (nonlinear_arith)
            requires
                pb * pp == 32,
        ;
        assert(digits_value(data, 256) == dr * pb + r);
        assert(last as nat == r * pp);
        assert(digits_value(f, 32) == dr * 32 + r * pp);
        assert(digits_value(f, 32) == digits_value(data, 256) * pp);
        assert(all_5bit(f)) by {
            assert forall|i: int| 0 <= i < f.len() implies f[i] < 32 by {
                if i < ret.len() {
                    assert(f[i] == ret[i]);
                }
            }
        }
    } else {
        assert(f == ret);
        assert(p2(pad) == 1);
        assert(p2(bits as nat) == 1);
        assert((acc as nat) % p2(bits as nat) == 0);
        assert(digits_value(ret, 32) * p2(bits as nat) == digits_value(ret, 32));
        assert(digits_value(data, 256) == digits_value(ret, 32));
    }
    assert(digits_value(f, 32) == digits_value(data, 256) * p2(pad));
    assert(5 * f.len() == 8 * n + pad);
    lemma_dec_inv(f);
    let (acc2, bits2, ret2, ok2) = cb_state(f, 5, 8);
    assert(ret2.len() == n && bits2 == pad);
    let p = p2(pad);
    let a = digits_value(data, 256);
    let b = digits_value(ret2, 256);
    let r2 = (acc2 as nat) % p;
    assert(p >= 1 && p <= 16);
    assert(a * p == b * p + r2);
    assert(r2 < p);
    assert(a == b && r2 == 0) by (nonlinear_arith)
        requires
            a * p == b * p + r2,
            r2 < p,
            p >= 1,
    ;
    lemma_zero_tail(acc2, bits2);
    lemma_digits_injective(ret2, data);
}

proof fn lemma_decode_encode_hash(h: Seq<u8>)
    requires
        h.len() == 64,
    ensures
        spec_decode_address(spec_encode_hash(h)) == Some(h.take(32)),
        all_ascii(spec_encode_hash(h)),
{
    let b = h.take(32);
    let d5 = convert_bits_spec(b, 8, 5, true)->0;
    let e = spec_encode_hash(h);
    assert(e == encode_spec(hrp_hsn(), d5));
    assert(all_5bit(d5) && convert_bits_spec(d5, 5, 8, false) == Some(b)) by {
        lemma_regroup_roundtrip(b);
    }
    assert(decode_spec(e) == Some((hrp_hsn(), d5))) by {
        lemma_decode_encode(d5);
    }
    assert(b.len() == 32);
    assert(all_ascii(e)) by {
        assert(all_ascii(hrp_hsn())) by {
            assert forall|i: int| 0 <= i < hrp_hsn().len() implies hrp_hsn()[i] < 128 by {}
        }
        lemma_encode_ascii(hrp_hsn(), d5);
    }
}

proof fn lemma_cb_emit_len(acc: u32, bits: u32, ret: Seq<u8>)
    ensures
        cb_emit(acc, bits, 5, ret).1.len() == ret.len() + bits / 5,
        cb_emit(acc, bits, 5, ret).0 == bits % 5,
    decreases bits,
{
    if bits >= 5 {
        let r2 = ret.push(((acc >> ((bits - 5) as u32)) & (((1u32 << 5u32) - 1) as u32)) as u8);
        lemma_cb_emit_len(acc, (bits - 5) as u32, r2);
        assert((bits - 5) / 5 + 1 == bits / 5);
        assert((bits - 5) % 5 == bits % 5);
    }
}

proof fn lemma_cb_state_len(data: Seq<u8>)
    ensures
        cb_state(data, 8, 5).3,
        cb_state(data, 8, 5).2.len() * 5 + cb_state(data, 8, 5).1 == 8 * data.len(),
        cb_state(data, 8, 5).1 < 5,
    decreases data.len(),
{
    if data.len() > 0 {
        lemma_cb_state_len(data.drop_last());
        let (acc, bits, ret, ok) = cb_state(data.drop_last(), 8, 5);
        let v = data.last();
        assert(((v as u32) >> 8u32) == 0) by (bit_vector)
            requires
                v < 256;
        let acc2 = (acc << 8u32) | (v as u32);
        lemma_cb_emit_len(acc2, (bits + 8) as u32, ret);
        let b8 = bits + 8;
        assert(b8 == 5 * (b8 / 5) + b8 % 5);
    }
}

/// Law: the bech32m form of a 512-bit digest is 62 characters long and
/// starts with `hsn1` (three characters of prefix, the separator, 52 data
/// characters and a 6-character checksum).
pub proof fn law_encoded_address_shape(h: Seq<u8>)
    requires
        h.len() == 64,
    ensures
        spec_encode_hash(h).len() == 62,
        spec_encode_hash(h).take(4) == seq![104u8, 115u8, 110u8, 49u8],
{
    let b = h.take(32);
    lemma_cb_state_len(b);
    let st = cb_state(b, 8, 5);
    assert(st.2.len() == 51 && st.1 == 1);
    let d5 = convert_bits_spec(b, 8, 5, true)->0;
    assert(d5.len() == 52);
    let e = spec_encode_hash(h);
    assert(e.take(4) =~= seq![104u8, 115u8, 110u8, 49u8]);
}

/// Law: a bech32m address decodes to the digest prefix it was made from.
/// The string that `encode_hash` produces for a 512-bit digest `h` is a
/// valid `hsn1…` address whose decoded payload is the first 32 bytes of `h`.
pub proof fn law_bech32m_roundtrip(h: Seq<u8>)
    requires
        h.len() == 64,
    ensures
        spec_decode_address(encode_utf8(ascii_chars(spec_encode_hash(h)))) == Some(h.take(32)),
        spec_fingerprint(encode_utf8(ascii_chars(spec_encode_hash(h)))) == Some(h.take(32)),
{
    lemma_decode_encode_hash(h);
    crate::bytes::lemma_utf8_of_ascii(spec_encode_hash(h));
}

proof fn lemma_greatest_one(s: Seq<u8>, k: int)
    requires
        0 <= k < s.len(),
        s[k] == 49,
    ensures
        exists|i: int| 0 <= i < s.len() && s[i] == 49 && forall|j: int| i < j < s.len() ==> s[j] != 49,
    decreases s.len() - k,
{
    if exists|j: int| k < j < s.len() && s[j] == 49 {
        let j = choose|j: int| k < j < s.len() && s[j] == 49;
        lemma_greatest_one(s, j);
    } else {
        assert(forall|j: int| k < j < s.len() ==> s[j] != 49);
    }
}

proof fn lemma_last_one_found(s: Seq<u8>)
    ensures
        last_one(s) matches Some(p) ==> 0 <= p < s.len() && s[p] == 49,
{
    if exists|i: int| 0 <= i < s.len() && s[i] == 49 {
        let k = choose|i: int| 0 <= i < s.len() && s[i] == 49;
        lemma_greatest_one(s, k);
    }
}

#[verifier::rlimit(40)]
proof fn lemma_decode_hrp(addr: Seq<u8>)
    ensures
        decode_spec(addr) matches Some((hrp, d)) ==> exists|p: int| 0 <= p < addr.len() && hrp == lower_bytes(addr).take(p)
            && #[trigger] lower_bytes(addr)[p] == 49u8,
{
    let low = lower_bytes(addr);
    lemma_last_one_found(low);
    reveal(decode_spec);
    if let Some((hrp, d)) = decode_spec(addr) {
        let p = last_one(low)->0;
        assert(low[p] == 49u8 && hrp == low.take(p));
    }
}

/// A legacy `hsn:` string is never read as a bech32m `hsn1…` address.
proof fn lemma_legacy_not_bech32m(h: Seq<u8>)
    ensures
        spec_decode_address(spec_legacy_hex(h)) is None,
{
    let e = spec_legacy_hex(h);
    lemma_decode_hrp(e);
    if let Some((hrp, d)) = decode_spec(e) {
        let p = choose|p: int| 0 <= p < e.len() && hrp == lower_bytes(e).take(p) && #[trigger] lower_bytes(e)[p] == 49u8;
        assert(lower_bytes(e)[p] == 49u8);
        if p < 4 {
            assert(e[p] == legacy_prefix()[p]);
            assert(lower_bytes(e)[p] == e[p]);
        }
        assert(hrp.len() == p);
        assert(hrp.len() != hrp_hsn().len());
    }
}

/// Law: the bech32m and legacy hex forms of one address digest name the same
/// key: both have the digest's first 32 bytes as fingerprint, so they are
/// equivalent addresses.
pub proof fn law_legacy_and_bech32m_equivalent(h: Seq<u8>)
    requires
        h.len() == 64,
    ensures
        spec_fingerprint(encode_utf8(ascii_chars(spec_legacy_hex(h)))) == Some(h.take(32)),
        spec_equivalent(encode_utf8(ascii_chars(spec_encode_hash(h))), encode_utf8(ascii_chars(spec_legacy_hex(h)))),
{
    law_bech32m_roundtrip(h);
    let l = spec_legacy_hex(h);
    crate::bytes::lemma_hex_encode_ascii(h);
    assert(all_ascii(l)) by {
        assert forall|i: int| 0 <= i < l.len() implies l[i] < 128 by {
            if i >= 4 {
                assert(l[i] == hex_encode_spec(h)[i - 4]);
            }
        }
    }
    crate::bytes::lemma_utf8_of_ascii(l);
    lemma_legacy_not_bech32m(h);
    crate::bytes::lemma_hex_roundtrip(h);
    assert(l.take(4) =~= legacy_prefix());
    assert(l.skip(4) =~= hex_encode_spec(h));
}

/// Distinct checksum states stay distinct after one more common symbol.
proof fn lemma_step_keeps_apart(a: u32, b: u32, x: u8)
    requires
        a < 0x4000_0000,
        b < 0x4000_0000,
        a != b,
    ensures
        polymod_step(a, x) != polymod_step(b, x),
{
    assert(polymod_step(a, x) != polymod_step(b, x)) by (bit_vector)
        requires
            a < 0x4000_0000,
            b < 0x4000_0000,
            a != b,
    ;
}

/// Law: the checksum polynomial tells apart two symbol strings that differ
/// in exactly one symbol, wherever it stands.
pub proof fn law_polymod_single_substitution(v: Seq<u8>, i: int, y: u8)
    requires
        0 <= i < v.len(),
        y != v[i],
    ensures
        polymod_spec(v.update(i, y)) != polymod_spec(v),
    decreases v.len(),
{
    let w = v.update(i, y);
    let d = v.drop_last();
    if i == v.len() - 1 {
        assert(w.drop_last() =~= d);
        let c = polymod_spec(d);
        let x = v[i];
        assert(w.last() == y && v.last() == x);
        assert(polymod_step(c, y) != polymod_step(c, x)) by (bit_vector)
            requires
                y != x,
        ;
    } else {
        law_polymod_single_substitution(d, i, y);
        assert(w.drop_last() =~= d.update(i, y));
        assert(w.last() == v.last());
        lemma_polymod_bound(d);
        lemma_polymod_bound(d.update(i, y));
        lemma_step_keeps_apart(polymod_spec(d.update(i, y)), polymod_spec(d), v.last());
    }
}

/// The symbol values of the characters after `hsn1`.
pub open spec fn data_values(a: Seq<u8>) -> Seq<u8> {
    a.skip(4).map_values(|x: u8| charset_pos(x)->0)
}

/// An `hsn1` string of charset characters decodes exactly when its
/// checksum polynomial comes out at the bech32m constant.
proof fn lemma_decode_shape(a: Seq<u8>)
    requires
        a.len() >= 10,
        a.take(3) == hrp_hsn(),
        a[3] == 49u8,
        forall|j: int| 4 <= j < a.len() ==> exists|k: int| 0 <= k < 32 && charset()[k] == #[trigger] a[j],
    ensures
        decode_spec(a) is Some <==> polymod_spec(hrp_expand_spec(hrp_hsn()) + data_values(a)) == BECH32M_CONST,
{
    reveal(decode_spec);
    lemma_charset_plain();
    assert forall|j: int| 0 <= j < a.len() implies !is_upper(#[trigger] a[j]) && (a[j] == 49u8 <==> j == 3) by {
        if j < 3 {
            assert(a[j] == a.take(3)[j]);
        } else if j > 3 {
            let k = choose|k: int| 0 <= k < 32 && charset()[k] == a[j];
            assert(!is_upper(charset()[k]) && charset()[k] != 49u8);
        }
    }
    assert(!(exists|i: int| 0 <= i < a.len() && is_upper(a[i])));
    let low = lower_bytes(a);
    assert(low =~= a);
    let p = choose|i: int| 0 <= i < low.len() && low[i] == 49 && forall|j: int| i < j < low.len() ==> low[j] != 49;
    assert(0 <= 3 < low.len() && low[3] == 49 && forall|j: int| 3 < j < low.len() ==> low[j] != 49);
    assert(p == 3) by {
        if p < 3 {
            assert(low[3] != 49);
        }
        if p > 3 {
            assert(low[p] != 49);
        }
    }
    assert(last_one(low) == Some(3int));
    let data = low.skip(4);
    assert(low.take(3) =~= hrp_hsn());
    assert forall|i: int| 0 <= i < data.len() implies #[trigger] charset_pos(data[i]) is Some by {
        assert(data[i] == a[i + 4]);
        let k = choose|k: int| 0 <= k < 32 && charset()[k] == a[i + 4];
        lemma_charset_pos_of(k as u8);
    }
    assert(!(exists|i: int| 0 <= i < data.len() && charset_pos(data[i]) is None));
    assert(data =~= a.skip(4));
}

/// Law: the checksum catches any single substituted character. Replacing
/// one character after `hsn1` of an encoded address by a different charset
/// character gives a string that no longer decodes.
pub proof fn law_bech32m_single_substitution(h: Seq<u8>, j: int, y: u8)
    requires
        h.len() == 64,
        4 <= j < spec_encode_hash(h).len(),
        y < 32,
        charset()[y as int] != spec_encode_hash(h)[j],
    ensures
        spec_decode_address(spec_encode_hash(h).update(j, charset()[y as int])) is None,
{
    let b = h.take(32);
    let d = convert_bits_spec(b, 8, 5, true)->0;
    let e = spec_encode_hash(h);
    law_encoded_address_shape(h);
    lemma_regroup_roundtrip(b);
    lemma_decode_encode(d);
    let hrp = hrp_hsn();
    let zeros = seq![0u8, 0u8, 0u8, 0u8, 0u8, 0u8];
    let chk = polymod_spec(hrp_expand_spec(hrp) + d + zeros) ^ BECH32M_CONST;
    let c = checksum_symbols(chk);
    let dm = d.map_values(|x: u8| charset()[x as int]);
    let cm = c.map_values(|x: u8| charset()[x as int]);
    assert(e == hrp + seq![49u8] + dm + cm);
    let n = d.len();
    assert forall|k: int| 0 <= k < 6 implies #[trigger] c[k] < 32 by {
        let sh = (5 * (5 - k)) as u32;
        assert((chk >> sh) & 31u32 < 32) by (bit_vector);
    }
    assert forall|i: int| 4 <= i < e.len() implies exists|k: int| 0 <= k < 32 && charset()[k] == #[trigger] e[i] by {
        if i < 4 + n {
            assert(e[i] == dm[i - 4]);
            assert(d[i - 4] < 32);
            assert(charset()[d[i - 4] as int] == e[i]);
        } else {
            assert(e[i] == cm[i - 4 - n]);
            assert(c[i - 4 - n] < 32);
            assert(charset()[c[i - 4 - n] as int] == e[i]);
        }
    }
    assert(e.take(3) =~= hrp);
    assert(e[3] == e.take(4)[3]);
    lemma_decode_shape(e);
    let cy = charset()[y as int];
    let e2 = e.update(j, cy);
    assert(e2.take(3) =~= hrp);
    assert forall|i: int| 4 <= i < e2.len() implies exists|k: int| 0 <= k < 32 && charset()[k] == #[trigger] e2[i] by {
        if i == j {
            assert(charset()[y as int] == e2[i]);
        } else {
            assert(e2[i] == e[i]);
        }
    }
    lemma_decode_shape(e2);
    let v = hrp_expand_spec(hrp) + data_values(e);
    let kj = choose|k: int| 0 <= k < 32 && charset()[k] == e[j];
    lemma_charset_pos_of(kj as u8);
    lemma_charset_pos_of(y);
    let hl = hrp_expand_spec(hrp).len();
    assert(hl == 7);
    assert(data_values(e2) =~= data_values(e).update(j - 4, y));
    assert(v[hl + j - 4] == kj as u8);
    assert(kj as u8 != y);
    assert(hrp_expand_spec(hrp) + data_values(e2) =~= v.update(hl + j - 4, y));
    law_polymod_single_substitution(v, hl + j - 4, y);
}

/// Law: a string that mixes upper- and lowercase letters is not a bech32m
/// address.
pub proof fn law_mixed_case_refused(s: Seq<u8>)
    requires
        exists|i: int| 0 <= i < s.len() && is_upper(s[i]),
        exists|i: int| 0 <= i < s.len() && is_lower(s[i]),
    ensures
        spec_decode_address(s) is None,
{
    reveal(decode_spec);
}

/// Law: a legacy `hsn:` string is never taken for a bech32m address: its
/// human-readable part would run past `hsn`.
pub proof fn law_legacy_not_bech32m(s: Seq<u8>)
    requires
        s.len() >= 4,
        s.take(4) == legacy_prefix(),
    ensures
        spec_decode_address(s) is None,
{
    let low = lower_bytes(s);
    assert(s[0] == s.take(4)[0] && s[1] == s.take(4)[1] && s[2] == s.take(4)[2] && s[3] == s.take(4)[3]);
    assert(low[0] != 49u8 && low[1] != 49u8 && low[2] != 49u8 && low[3] != 49u8);
    lemma_last_one_found(low);
    assert(last_one(low) matches Some(p) ==> p >= 4);
    assert(decode_spec(s) matches Some((h, d)) ==> h.len() >= 4) by {
        reveal(decode_spec);
    }
}

} // verus!
