//! Byte-level encodings shared across the crate: little-endian integers,
//! ASCII strings, lowercase hexadecimal and lexicographic byte order.

use vstd::prelude::*;

verus! {

/// Little-endian bytes of a `u64`.
pub open spec fn le64(x: u64) -> Seq<u8> {
    Seq::new(8, |i: int| (x >> ((8 * i) as u64)) as u8)
}

/// Little-endian bytes of a `u128`.
pub open spec fn le128(x: u128) -> Seq<u8> {
    Seq::new(16, |i: int| (x >> ((8 * i) as u128)) as u8)
}

/// Little-endian bytes of a `u32`.
pub open spec fn le32(x: u32) -> Seq<u8> {
    Seq::new(4, |i: int| (x >> ((8 * i) as u32)) as u8)
}

/// Append the little-endian bytes of `x`.
pub fn push_le64(buf: &mut Vec<u8>, x: u64)
    ensures
        final(buf)@ == old(buf)@ + le64(x),
{
    let ghost start = buf@;
    let mut i: u64 = 0;
    while i < 8
        invariant
            i <= 8,
            buf@ == start + le64(x).take(i as int),
        decreases 8 - i,
    {
        buf.push((x >> (8 * i)) as u8);
        proof {
            assert(le64(x).take(i + 1) =~= le64(x).take(i as int).push((x >> (8 * i)) as u8));
        }
        i = i + 1;
    }
    proof {
        assert(le64(x).take(8) =~= le64(x));
    }
}

/// Append the little-endian bytes of `x`.
pub fn push_le128(buf: &mut Vec<u8>, x: u128)
    ensures
        final(buf)@ == old(buf)@ + le128(x),
{
    let ghost start = buf@;
    let mut i: u128 = 0;
    while i < 16
        invariant
            i <= 16,
            buf@ == start + le128(x).take(i as int),
        decreases 16 - i,
    {
        buf.push((x >> (8 * i)) as u8);
        proof {
            assert(le128(x).take(i + 1) =~= le128(x).take(i as int).push((x >> (8 * i)) as u8));
        }
        i = i + 1;
    }
    proof {
        assert(le128(x).take(16) =~= le128(x));
    }
}

/// Append the little-endian bytes of `x`.
pub fn push_le32(buf: &mut Vec<u8>, x: u32)
    ensures
        final(buf)@ == old(buf)@ + le32(x),
{
    let ghost start = buf@;
    let mut i: u32 = 0;
    while i < 4
        invariant
            i <= 4,
            buf@ == start + le32(x).take(i as int),
        decreases 4 - i,
    {
        buf.push((x >> (8 * i)) as u8);
        proof {
            assert(le32(x).take(i + 1) =~= le32(x).take(i as int).push((x >> (8 * i)) as u8));
        }
        i = i + 1;
    }
    proof {
        assert(le32(x).take(4) =~= le32(x));
    }
}

/// Append every byte of `src`.
pub fn push_all(buf: &mut Vec<u8>, src: &[u8])
    ensures
        final(buf)@ == old(buf)@ + src@,
{
    let ghost start = buf@;
    let mut i: usize = 0;
    while i < src.len()
        invariant
            i <= src@.len(),
            buf@ == start + src@.take(i as int),
        decreases src@.len() - i,
    {
        buf.push(src[i]);
        proof {
            assert(src@.take(i + 1) =~= src@.take(i as int).push(src@[i as int]));
        }
        i = i + 1;
    }
    proof {
        assert(src@.take(src@.len() as int) =~= src@);
    }
}

/// Byte-wise equality of two slices.
pub fn bytes_eq(a: &[u8], b: &[u8]) -> (r: bool)
    ensures
        r == (a@ == b@),
{
    if a.len() != b.len() {
        return false;
    }
    let mut i: usize = 0;
    while i < a.len()
        invariant
            a@.len() == b@.len(),
            i <= a@.len(),
            forall|j: int| 0 <= j < i ==> a@[j] == b@[j],
        decreases a@.len() - i,
    {
        if a[i] != b[i] {
            return false;
        }
        i = i + 1;
    }
    proof {
        assert(a@ =~= b@);
    }
    true
}

/// Strict lexicographic order on byte strings (shorter prefix first), the
/// order Rust uses for `&[u8] < &[u8]`.
pub open spec fn lex_lt(a: Seq<u8>, b: Seq<u8>) -> bool
    decreases a.len(),
{
    if a.len() == 0 {
        b.len() > 0
    } else if b.len() == 0 {
        false
    } else if a[0] != b[0] {
        a[0] < b[0]
    } else {
        lex_lt(a.drop_first(), b.drop_first())
    }
}

/// Decide `lex_lt` on slices.
pub fn bytes_lt(a: &[u8], b: &[u8]) -> (r: bool)
    ensures
        r == lex_lt(a@, b@),
{
    let mut i: usize = 0;
    proof {
        assert(a@.skip(0) =~= a@);
        assert(b@.skip(0) =~= b@);
    }
    while i < a.len() && i < b.len()
        invariant
            i <= a@.len(),
            i <= b@.len(),
            forall|j: int| 0 <= j < i ==> a@[j] == b@[j],
            lex_lt(a@, b@) == lex_lt(a@.skip(i as int), b@.skip(i as int)),
        decreases a@.len() - i,
    {
        if a[i] != b[i] {
            proof {
                assert(a@.skip(i as int)[0] == a@[i as int]);
                assert(b@.skip(i as int)[0] == b@[i as int]);
            }
            return a[i] < b[i];
        }
        proof {
            assert(a@.skip(i as int).drop_first() =~= a@.skip(i + 1));
            assert(b@.skip(i as int).drop_first() =~= b@.skip(i + 1));
        }
        i = i + 1;
    }
    i < b.len()
}

/// `lex_lt` is asymmetric.
pub proof fn lemma_lex_asym(a: Seq<u8>, b: Seq<u8>)
    requires
        lex_lt(a, b),
    ensures
        !lex_lt(b, a),
    decreases a.len(),
{
    if a.len() > 0 && b.len() > 0 && a[0] == b[0] {
        lemma_lex_asym(a.drop_first(), b.drop_first());
    }
}

/// `lex_lt` is transitive.
pub proof fn lemma_lex_trans(a: Seq<u8>, b: Seq<u8>, c: Seq<u8>)
    requires
        lex_lt(a, b),
        lex_lt(b, c),
    ensures
        lex_lt(a, c),
    decreases a.len(),
{
    if a.len() > 0 && b.len() > 0 && c.len() > 0 && a[0] == b[0] && b[0] == c[0] {
        lemma_lex_trans(a.drop_first(), b.drop_first(), c.drop_first());
    }
}

/// Two different byte strings are ordered one way or the other.
pub proof fn lemma_lex_trichotomy(a: Seq<u8>, b: Seq<u8>)
    requires
        a != b,
    ensures
        lex_lt(a, b) || lex_lt(b, a),
    decreases a.len(),
{
    if a.len() == 0 {
        assert(b.len() > 0) by {
            if b.len() == 0 {
                assert(a =~= b);
            }
        }
    } else if b.len() > 0 && a[0] == b[0] {
        if a.drop_first() == b.drop_first() {
            assert(a =~= seq![a[0]] + a.drop_first());
            assert(b =~= seq![b[0]] + b.drop_first());
        } else {
            lemma_lex_trichotomy(a.drop_first(), b.drop_first());
        }
    }
}

/// Little-endian value of a byte string.
pub open spec fn le_value(b: Seq<u8>) -> nat
    decreases b.len(),
{
    if b.len() == 0 {
        0
    } else {
        (b[0] as nat) + 256 * le_value(b.drop_first())
    }
}

/// `256^n`.
pub open spec fn pow256(n: nat) -> nat
    decreases n,
{
    if n == 0 { 1 } else { 256 * pow256((n - 1) as nat) }
}

pub proof fn lemma_le_value_bound(b: Seq<u8>)
    ensures
        le_value(b) < pow256(b.len()),
    decreases b.len(),
{
    if b.len() > 0 {
        lemma_le_value_bound(b.drop_first());
    }
}

/// Little-endian `u64` of eight bytes.
pub fn u64_le(b: &[u8]) -> (r: u64)
    requires
        b@.len() == 8,
    ensures
        r as nat == le_value(b@),
{
    let mut v: u64 = 0;
    let mut i: usize = 8;
    proof {
        assert(b@.skip(8) =~= Seq::<u8>::empty());
        assert(pow256(8) == 0x1_0000_0000_0000_0000) by {
            reveal_with_fuel(pow256, 9);
        }
    }
    while i > 0
        invariant
            i <= 8,
            b@.len() == 8,
            v as nat == le_value(b@.skip(i as int)),
            pow256(8) == 0x1_0000_0000_0000_0000,
        decreases i,
    {
        proof {
            assert(b@.skip(i - 1).drop_first() =~= b@.skip(i as int));
            assert(b@.skip(i - 1)[0] == b@[i - 1]);
            lemma_le_value_bound(b@.skip(i - 1));
            lemma_pow_mono((b@.len() - (i - 1)) as nat, 8);
        }
        v = v * 256 + b[i - 1] as u64;
        i = i - 1;
    }
    proof {
        assert(b@.skip(0) =~= b@);
    }
    v
}

pub proof fn lemma_pow_mono(a: nat, b: nat)
    requires
        a <= b,
    ensures
        pow256(a) <= pow256(b),
    decreases b,
{
    if a < b {
        lemma_pow_mono(a, (b - 1) as nat);
    }
}

/// Reading back the little-endian bytes of a `u64` gives the number.
pub proof fn lemma_le64_value(x: u64)
    ensures
        le_value(le64(x)) == x,
{
    let s = le64(x);
    let b0 = (x >> 0u64) as u8;
    let b1 = (x >> 8u64) as u8;
    let b2 = (x >> 16u64) as u8;
    let b3 = (x >> 24u64) as u8;
    let b4 = (x >> 32u64) as u8;
    let b5 = (x >> 40u64) as u8;
    let b6 = (x >> 48u64) as u8;
    let b7 = (x >> 56u64) as u8;
    assert(s[0] == b0 && s[1] == b1 && s[2] == b2 && s[3] == b3 && s[4] == b4 && s[5] == b5 && s[6] == b6 && s[7] == b7);
    let s1 = s.drop_first();
    let s2 = s1.drop_first();
    let s3 = s2.drop_first();
    let s4 = s3.drop_first();
    let s5 = s4.drop_first();
    let s6 = s5.drop_first();
    let s7 = s6.drop_first();
    let s8 = s7.drop_first();
    assert(s8.len() == 0);
    assert(le_value(s8) == 0);
    assert(le_value(s7) == b7 as nat);
    assert(le_value(s6) == b6 + 256 * (b7 as nat));
    assert(le_value(s5) == b5 + 256 * (b6 + 256 * (b7 as nat)));
    assert(le_value(s4) == b4 + 256 * (b5 + 256 * (b6 + 256 * (b7 as nat))));
    assert(le_value(s3) == b3 + 256 * (b4 + 256 * (b5 + 256 * (b6 + 256 * (b7 as nat)))));
    assert(le_value(s2) == b2 + 256 * (b3 + 256 * (b4 + 256 * (b5 + 256 * (b6 + 256 * (b7 as nat))))));
    assert(le_value(s1) == b1 + 256 * (b2 + 256 * (b3 + 256 * (b4 + 256 * (b5 + 256 * (b6 + 256 * (b7 as nat)))))));
    assert(le_value(s) == b0 + 256 * (b1 + 256 * (b2 + 256 * (b3 + 256 * (b4 + 256 * (b5 + 256 * (b6 + 256 * (b7 as nat))))))));
    assert(x == (x >> 0u64) as u8 + 256 * ((x >> 8u64) as u8 + 256 * ((x >> 16u64) as u8 + 256 * ((x >> 24u64) as u8
        + 256 * ((x >> 32u64) as u8 + 256 * ((x >> 40u64) as u8 + 256 * ((x >> 48u64) as u8 + 256 * ((x >> 56u64) as u8)))))))) by (bit_vector);
}

/// Reading back the little-endian bytes of a `u32` gives the number.
pub proof fn lemma_le32_value(x: u32)
    ensures
        le_value(le32(x)) == x,
{
    let s = le32(x);
    let b0 = (x >> 0u32) as u8;
    let b1 = (x >> 8u32) as u8;
    let b2 = (x >> 16u32) as u8;
    let b3 = (x >> 24u32) as u8;
    assert(s[0] == b0 && s[1] == b1 && s[2] == b2 && s[3] == b3);
    let s1 = s.drop_first();
    let s2 = s1.drop_first();
    let s3 = s2.drop_first();
    let s4 = s3.drop_first();
    assert(s4.len() == 0);
    assert(le_value(s4) == 0);
    assert(le_value(s3) == b3 as nat);
    assert(le_value(s2) == b2 + 256 * (b3 as nat));
    assert(le_value(s1) == b1 + 256 * (b2 + 256 * (b3 as nat)));
    assert(le_value(s) == b0 + 256 * (b1 + 256 * (b2 + 256 * (b3 as nat))));
    assert(x == (x >> 0u32) as u8 + 256 * ((x >> 8u32) as u8 + 256 * ((x >> 16u32) as u8 + 256 * ((x >> 24u32) as u8)))) by (bit_vector);
}

/// A string made of the given ASCII bytes, one character per byte.
pub open spec fn ascii_chars(b: Seq<u8>) -> Seq<char> {
    b.map_values(|x: u8| x as char)
}

/// Whether every byte is 7-bit ASCII.
pub open spec fn all_ascii(b: Seq<u8>) -> bool {
    forall|i: int| 0 <= i < b.len() ==> b[i] < 128
}

/// Build a `String` from ASCII bytes (std `String::from_utf8`; ASCII is
/// always valid UTF-8, so this never fails on the inputs it admits).
#[verifier::external_body]
pub fn string_from_ascii(bytes: Vec<u8>) -> (r: String)
    requires
        all_ascii(bytes@),
    ensures
        r@ == ascii_chars(bytes@),
{
    String::from_utf8(bytes).unwrap_or_default()
}

/// Lowercase hexadecimal digit for a nibble.
pub open spec fn hex_digit(n: u8) -> u8 {
    if n < 10 {
        (48 + n) as u8
    } else {
        (87 + n) as u8
    }
}

/// Lowercase hex encoding: two digits per byte, high nibble first.
pub open spec fn hex_encode_spec(b: Seq<u8>) -> Seq<u8>
    decreases b.len(),
{
    if b.len() == 0 {
        Seq::empty()
    } else {
        seq![hex_digit(b[0] / 16), hex_digit(b[0] % 16)] + hex_encode_spec(b.drop_first())
    }
}

proof fn lemma_hex_encode_push(b: Seq<u8>, x: u8)
    ensures
        hex_encode_spec(b.push(x)) == hex_encode_spec(b) + seq![hex_digit(x / 16), hex_digit(x % 16)],
    decreases b.len(),
{
    if b.len() == 0 {
        assert(b.push(x).drop_first() =~= Seq::<u8>::empty());
        assert(hex_encode_spec(Seq::<u8>::empty()) =~= Seq::<u8>::empty());
        assert(hex_encode_spec(b.push(x)) =~= seq![hex_digit(x / 16), hex_digit(x % 16)]);
    } else {
        assert(b.push(x).drop_first() =~= b.drop_first().push(x));
        lemma_hex_encode_push(b.drop_first(), x);
        assert(hex_encode_spec(b.push(x)) =~= hex_encode_spec(b) + seq![hex_digit(x / 16), hex_digit(x % 16)]);
    }
}

/// Hex decoding undoes hex encoding.
pub proof fn lemma_hex_roundtrip(b: Seq<u8>)
    ensures
        hex_decode_spec(hex_encode_spec(b)) == Some(b),
    decreases b.len(),
{
    if b.len() > 0 {
        lemma_hex_roundtrip(b.drop_first());
        let e = hex_encode_spec(b);
        let x = b[0];
        let hi = x / 16;
        let lo = x % 16;
        assert(e == seq![hex_digit(hi), hex_digit(lo)] + hex_encode_spec(b.drop_first()));
        assert(e.skip(2) =~= hex_encode_spec(b.drop_first()));
        assert(hex_value(hex_digit(hi)) == Some(hi));
        assert(hex_value(hex_digit(lo)) == Some(lo));
        assert((hi * 16 + lo) as u8 == x);
        assert(seq![x] + b.drop_first() =~= b);
    }
}

/// The UTF-8 bytes of an ASCII string are its bytes.
pub proof fn lemma_utf8_of_ascii(e: Seq<u8>)
    requires
        all_ascii(e),
    ensures
        vstd::utf8::encode_utf8(ascii_chars(e)) == e,
{
    let c = ascii_chars(e);
    assert(vstd::utf8::is_ascii_chars(c)) by {
        assert forall|i: int| 0 <= i < c.len() implies '\0' <= #[trigger] c[i] <= '\u{7f}' by {
            assert(e[i] < 128);
        }
    }
    vstd::utf8::is_ascii_chars_encode_utf8(c);
    assert(vstd::utf8::encode_utf8(c) =~= e) by {
        assert forall|i: int| 0 <= i < e.len() implies vstd::utf8::encode_utf8(c)[i] == e[i] by {
            assert(c[i] as u8 == vstd::utf8::encode_utf8(c)[i]);
            assert(e[i] < 128);
        }
    }
}

pub proof fn lemma_hex_encode_ascii(b: Seq<u8>)
    ensures
        all_ascii(hex_encode_spec(b)),
        hex_encode_spec(b).len() == 2 * b.len(),
    decreases b.len(),
{
    if b.len() > 0 {
        lemma_hex_encode_ascii(b.drop_first());
    }
}

/// Lowercase hex bytes of `data`.
pub fn hex_encode_bytes(data: &[u8]) -> (r: Vec<u8>)
    ensures
        r@ == hex_encode_spec(data@),
{
    let mut out: Vec<u8> = Vec::new();
    let mut i: usize = 0;
    proof {
        assert(data@.take(0) =~= Seq::<u8>::empty());
    }
    while i < data.len()
        invariant
            i <= data@.len(),
            out@ == hex_encode_spec(data@.take(i as int)),
        decreases data@.len() - i,
    {
        let x = data[i];
        let hi = x / 16;
        let lo = x % 16;
        out.push(if hi < 10 { 48 + hi } else { 87 + hi });
        out.push(if lo < 10 { 48 + lo } else { 87 + lo });
        proof {
            assert(data@.take(i + 1) =~= data@.take(i as int).push(x));
            lemma_hex_encode_push(data@.take(i as int), x);
        }
        i = i + 1;
    }
    proof {
        assert(data@.take(data@.len() as int) =~= data@);
    }
    out
}

/// Lowercase hex string of `data` (the `hex::encode` convention).
pub fn hex_encode(data: &[u8]) -> (r: String)
    ensures
        r@ == ascii_chars(hex_encode_spec(data@)),
{
    let b = hex_encode_bytes(data);
    proof {
        lemma_hex_encode_ascii(data@);
    }
    string_from_ascii(b)
}

/// Value of a hex digit (either case), if it is one.
pub open spec fn hex_value(c: u8) -> Option<u8> {
    if 48 <= c <= 57 {
        Some((c - 48) as u8)
    } else if 97 <= c <= 102 {
        Some((c - 87) as u8)
    } else if 65 <= c <= 70 {
        Some((c - 55) as u8)
    } else {
        None
    }
}

/// Hex decoding in the `hex::decode` convention: an even number of hex
/// digits of either case, two per byte; anything else is rejected.
pub open spec fn hex_decode_spec(s: Seq<u8>) -> Option<Seq<u8>>
    decreases s.len(),
{
    if s.len() == 0 {
        Some(Seq::empty())
    } else if s.len() == 1 {
        None
    } else {
        match (hex_value(s[0]), hex_value(s[1]), hex_decode_spec(s.skip(2))) {
            (Some(h), Some(l), Some(rest)) => Some(seq![(h * 16 + l) as u8] + rest),
            _ => None,
        }
    }
}

fn hex_value_exec(c: u8) -> (r: Option<u8>)
    ensures
        r == hex_value(c),
{
    if 48 <= c && c <= 57 {
        Some(c - 48)
    } else if 97 <= c && c <= 102 {
        Some(c - 87)
    } else if 65 <= c && c <= 70 {
        Some(c - 55)
    } else {
        None
    }
}

/// Decode hex digits from `s[start..]`.
fn hex_decode_from(s: &[u8], start: usize) -> (r: Option<Vec<u8>>)
    requires
        start <= s@.len(),
    ensures
        match r {
            Some(v) => hex_decode_spec(s@.skip(start as int)) == Some(v@),
            None => hex_decode_spec(s@.skip(start as int)) is None,
        },
    decreases s@.len() - start,
{
    let n = s.len() - start;
    if n == 0 {
        proof {
            assert(s@.skip(start as int) =~= Seq::<u8>::empty());
        }
        return Some(Vec::new());
    }
    if n == 1 {
        return None;
    }
    let h = hex_value_exec(s[start]);
    let l = hex_value_exec(s[start + 1]);
    proof {
        assert(s@.skip(start as int)[0] == s@[start as int]);
        assert(s@.skip(start as int)[1] == s@[start + 1]);
        assert(s@.skip(start as int).skip(2) =~= s@.skip(start + 2));
    }
    match (h, l) {
        (Some(h), Some(l)) => {
            let rest = hex_decode_from(s, start + 2);
            match rest {
                Some(rest) => {
                    proof {
                        assert(h < 16 && l < 16);
                    }
                    let mut out: Vec<u8> = Vec::new();
                    out.push(h * 16 + l);
                    let mut rest = rest;
                    let ghost r0 = rest@;
                    out.append(&mut rest);
                    proof {
                        assert(out@ =~= seq![(h * 16 + l) as u8] + r0);
                    }
                    Some(out)
                },
                None => None,
            }
        },
        _ => None,
    }
}

/// Decode a hex string of either case.
pub fn hex_decode(s: &[u8]) -> (r: Option<Vec<u8>>)
    ensures
        match r {
            Some(v) => hex_decode_spec(s@) == Some(v@),
            None => hex_decode_spec(s@) is None,
        },
{
    proof {
        assert(s@.skip(0) =~= s@);
    }
    hex_decode_from(s, 0)
}

} // verus!
