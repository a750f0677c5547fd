//! Absolute post-quantum signatures: every signed message is first reduced to
//! a 512-bit domain-separated Blake3 digest, then signed with ML-DSA-87.
//!
//! The wallet-facing [`AbsSignature`] carries the scheme code, the digest in
//! hex, the signature as a decimal number and as hex, and the signer's key.

use vstd::prelude::*;
use vstd::string::StringExecFns;
use vstd::utf8::encode_utf8;
use num_bigint::BigUint;
use crate::bytes::{ascii_chars, hex_decode, hex_decode_spec, hex_encode, hex_encode_spec};
use crate::crypto::{mldsa87_accepts, mldsa87_pair, sign_message, verify_signature, PQ_PUBLIC_KEY_SIZE, PQ_SIGNATURE_SIZE, PQ_SECRET_KEY_SIZE};
use crate::hash::spec_digest512;
use crate::pow::be_value;
pub use crate::hash::digest512;

verus! {

/// Absolute scheme type code of ML-DSA-87.
pub const ABS_SCHEME_ML_DSA_87: u32 = 87;
/// Human-readable scheme name.
pub const ABS_SCHEME_NAME: &'static str = "ML-DSA-87";
/// Size of the 512-bit message digest in bytes.
pub const DIGEST_512: usize = 64;

/// ASCII decimal digit for `d < 10`.
pub open spec fn decimal_char(d: nat) -> char {
    ((48 + d) as u8) as char
}

/// Decimal digits of `n`, most significant first, without leading zeros
/// (`"0"` for zero).
pub open spec fn decimal_digits(n: nat) -> Seq<char>
    decreases n,
{
    if n < 10 {
        seq![decimal_char(n)]
    } else {
        decimal_digits(n / 10).push(decimal_char(n % 10))
    }
}

/// ASCII bytes of the decimal digits of `n`.
pub open spec fn decimal_bytes(n: nat) -> Seq<u8>
    decreases n,
{
    if n < 10 {
        seq![(48 + n) as u8]
    } else {
        decimal_bytes(n / 10).push((48 + n % 10) as u8)
    }
}

proof fn lemma_decimal_bytes(n: nat)
    ensures
        ascii_chars(decimal_bytes(n)) == decimal_digits(n),
        crate::bytes::all_ascii(decimal_bytes(n)),
    decreases n,
{
    if n >= 10 {
        lemma_decimal_bytes(n / 10);
        assert(ascii_chars(decimal_bytes(n)) =~= ascii_chars(decimal_bytes(n / 10)).push(decimal_char(n % 10)));
    } else {
        assert(ascii_chars(decimal_bytes(n)) =~= seq![decimal_char(n)]);
    }
}

fn push_decimal(buf: &mut Vec<u8>, n: u64)
    ensures
        final(buf)@ == old(buf)@ + decimal_bytes(n as nat),
    decreases n,
{
    if n < 10 {
        buf.push(48 + n as u8);
        proof {
            assert(final(buf)@ =~= old(buf)@ + decimal_bytes(n as nat));
        }
    } else {
        push_decimal(buf, n / 10);
        buf.push(48 + (n % 10) as u8);
        proof {
            assert(final(buf)@ =~= old(buf)@ + decimal_bytes(n as nat));
        }
    }
}

fn push_decimal128(buf: &mut Vec<u8>, n: u128)
    ensures
        final(buf)@ == old(buf)@ + decimal_bytes(n as nat),
    decreases n,
{
    if n < 10 {
        buf.push(48 + n as u8);
        proof {
            assert(final(buf)@ =~= old(buf)@ + decimal_bytes(n as nat));
        }
    } else {
        push_decimal128(buf, n / 10);
        buf.push(48 + (n % 10) as u8);
        proof {
            assert(final(buf)@ =~= old(buf)@ + decimal_bytes(n as nat));
        }
    }
}

/// The decimal digits of `n`.
pub fn u128_to_decimal(n: u128) -> (r: String)
    ensures
        r@ == decimal_digits(n as nat),
{
    let mut buf: Vec<u8> = Vec::new();
    push_decimal128(&mut buf, n);
    proof {
        assert(buf@ =~= decimal_bytes(n as nat));
        lemma_decimal_bytes(n as nat);
    }
    crate::bytes::string_from_ascii(buf)
}

/// The decimal digits of `n`.
pub fn u64_to_decimal(n: u64) -> (r: String)
    ensures
        r@ == decimal_digits(n as nat),
{
    let mut buf: Vec<u8> = Vec::new();
    push_decimal(&mut buf, n);
    proof {
        assert(buf@ =~= decimal_bytes(n as nat));
        lemma_decimal_bytes(n as nat);
    }
    crate::bytes::string_from_ascii(buf)
}

/// `prefix` followed by the decimal digits of `n`.
pub fn text_with_number(prefix: &str, n: u64) -> (r: String)
    ensures
        r@ == prefix@ + decimal_digits(n as nat),
{
    let mut s = String::from_str(prefix);
    let d = u64_to_decimal(n);
    s.append(d.as_str());
    s
}

/// `BigUint::from_bytes_be(bytes).to_str_radix(10)`: the bytes read as a
/// big-endian unsigned integer, written in decimal. The crate's source writes
/// `"0"` for zero and otherwise the base-10 digits most significant first,
/// which is what [`decimal_digits`] states.
#[verifier::external_body]
fn be_to_decimal(bytes: &[u8]) -> (r: String)
    ensures
        r@ == decimal_digits(be_value(bytes@)),
{
    BigUint::from_bytes_be(bytes).to_str_radix(10)
}

/// A decimal digit or a `_` separator.
pub open spec fn digit_or_sep(c: char) -> bool {
    ('0' <= c <= '9') || c == '_'
}

/// Value of the decimal digits of `s`, `_` separators skipped.
pub open spec fn digits_value(s: Seq<char>) -> nat
    decreases s.len(),
{
    if s.len() == 0 {
        0
    } else if s.last() == '_' {
        digits_value(s.drop_last())
    } else {
        (digits_value(s.drop_last()) * 10 + (s.last() as int - 48)) as nat
    }
}

/// The minimal big-endian bytes of `n` (`[0]` for zero).
pub open spec fn be_minimal(n: nat) -> Seq<u8>
    decreases n,
{
    if n < 256 {
        seq![n as u8]
    } else {
        be_minimal(n / 256).push((n % 256) as u8)
    }
}

/// What `str::parse::<BigUint>` followed by `to_bytes_be` gives for `s`: an
/// optional leading `+`, then a nonempty run of decimal digits and `_`
/// separators that does not start with `_`; the result is the minimal
/// big-endian bytes of the digits' value. `None` for anything else.
pub open spec fn decimal_parse_be(s: Seq<char>) -> Option<Seq<u8>> {
    let body = if s.len() > 0 && s[0] == '+' { s.drop_first() } else { s };
    if body.len() > 0 && body[0] != '_' && forall|i: int| 0 <= i < body.len() ==> digit_or_sep(#[trigger] body[i]) {
        Some(be_minimal(digits_value(body)))
    } else {
        None
    }
}

proof fn lemma_digits_roundtrip(n: nat)
    ensures
        decimal_digits(n).len() > 0,
        '0' <= decimal_digits(n)[0] <= '9',
        forall|i: int| 0 <= i < decimal_digits(n).len() ==> digit_or_sep(#[trigger] decimal_digits(n)[i]) && decimal_digits(n)[i] != '_',
        digits_value(decimal_digits(n)) == n,
    decreases n,
{
    let d = decimal_digits(n);
    if n < 10 {
        assert(decimal_char(n) as int == 48 + n);
        assert(d.drop_last() =~= Seq::<char>::empty());
        assert(d.last() == decimal_char(n));
        assert(d.last() != '_');
        assert(digits_value(d) == digits_value(d.drop_last()) * 10 + (d.last() as int - 48));
    } else {
        lemma_digits_roundtrip(n / 10);
        let p = decimal_digits(n / 10);
        assert(decimal_char(n % 10) as int == 48 + n % 10);
        assert(d.drop_last() =~= p);
        assert(d[0] == p[0]);
        assert forall|i: int| 0 <= i < d.len() implies digit_or_sep(#[trigger] d[i]) && d[i] != '_' by {
            if i < p.len() {
                assert(d[i] == p[i]);
            }
        }
        assert(d.last() == decimal_char(n % 10));
        assert(d.last() != '_');
        assert(digits_value(d) == digits_value(p) * 10 + (d.last() as int - 48));
        assert(n == (n / 10) * 10 + n % 10);
    }
}

proof fn lemma_be_minimal(v: nat, l: nat)
    requires
        l >= 1,
        v < crate::bytes::pow256(l),
    ensures
        be_value(be_minimal(v)) == v,
        be_minimal(v).len() <= l,
    decreases v,
{
    if v < 256 {
        assert(be_minimal(v).drop_last() =~= Seq::<u8>::empty());
        assert(be_minimal(v).last() == v as u8);
        assert((v as u8) as nat == v);
        assert(be_value(be_minimal(v)) == be_value(be_minimal(v).drop_last()) * 256 + (be_minimal(v).last() as nat));
    } else {
        assert(crate::bytes::pow256(1) == 256) by {
            assert(crate::bytes::pow256(0) == 1);
        }
        if l == 1 {
            assert(false);
        }
        let q = v / 256;
        assert(q < crate::bytes::pow256((l - 1) as nat)) by (nonlinear_arith)
            requires
                v < crate::bytes::pow256(l),
                crate::bytes::pow256(l) == 256 * crate::bytes::pow256((l - 1) as nat),
                q == v / 256;
        lemma_be_minimal(q, (l - 1) as nat);
        assert(be_minimal(v).drop_last() =~= be_minimal(q));
        assert(v == q * 256 + v % 256) by (nonlinear_arith)
            requires
                q == v / 256;
        assert(be_minimal(v).last() == (v % 256) as u8);
        assert(((v % 256) as u8) as nat == v % 256);
        assert(be_value(be_minimal(v)) == be_value(be_minimal(q)) * 256 + (be_minimal(v).last() as nat));
    }
}

proof fn lemma_be_value_bound(s: Seq<u8>)
    ensures
        be_value(s) < crate::bytes::pow256(s.len()),
    decreases s.len(),
{
    if s.len() > 0 {
        lemma_be_value_bound(s.drop_last());
        let a = be_value(s.drop_last());
        let p = crate::bytes::pow256((s.len() - 1) as nat);
        assert(crate::bytes::pow256(s.len()) == 256 * p);
        assert(a * 256 + s.last() < 256 * p) by (nonlinear_arith)
            requires
                a < p,
                s.last() < 256;
    }
}

proof fn lemma_be_value_zero_prefix(k: nat, n: Seq<u8>)
    ensures
        be_value(Seq::new(k, |i: int| 0u8) + n) == be_value(n),
    decreases n.len(), k,
{
    let z = Seq::new(k, |i: int| 0u8);
    if n.len() == 0 {
        assert(z + n =~= z);
        if k > 0 {
            lemma_be_value_zero_prefix((k - 1) as nat, n);
            assert(z.drop_last() =~= Seq::new((k - 1) as nat, |i: int| 0u8));
            assert(Seq::new((k - 1) as nat, |i: int| 0u8) + n =~= Seq::new((k - 1) as nat, |i: int| 0u8));
        }
    } else {
        lemma_be_value_zero_prefix(k, n.drop_last());
        assert((z + n).drop_last() =~= z + n.drop_last());
    }
}

/// Law: the decimal value that `from_parts` writes for a nonempty signature
/// reads back, through the parse that `verify` applies, as bytes that give
/// the signature again once left-padded with zeros to its length.
pub proof fn law_decimal_value_roundtrip(sig: Seq<u8>)
    requires
        sig.len() > 0,
    ensures
        decimal_parse_be(decimal_digits(be_value(sig))) matches Some(n) && n.len() <= sig.len() && zero_padded(n, sig.len()) == sig,
{
    let v = be_value(sig);
    let d = decimal_digits(v);
    lemma_digits_roundtrip(v);
    assert(!(d[0] == '+'));
    assert(decimal_parse_be(d) == Some(be_minimal(v)));
    lemma_be_value_bound(sig);
    lemma_be_minimal(v, sig.len());
    let n = be_minimal(v);
    let z = zero_padded(n, sig.len());
    lemma_be_value_zero_prefix((sig.len() - n.len()) as nat, n);
    crate::ghostdag::lemma_be_value_injective(z, sig);
}

/// Law: a binding signature assembled by `from_parts` from the digest of
/// `domain ‖ message`, a full-length signature and a full-length key passes
/// `verify` exactly when ML-DSA-87 accepts that signature.
pub proof fn law_from_parts_verifies(a: AbsSignature, domain: Seq<u8>, message: Seq<u8>, sig: Seq<u8>, pk: Seq<u8>)
    requires
        is_abs_of(a, spec_digest512(domain, message), sig, pk),
        sig.len() == PQ_SIGNATURE_SIZE,
        pk.len() == PQ_PUBLIC_KEY_SIZE,
    ensures
        spec_abs_verify(a, domain, message) == mldsa87_accepts(pk, spec_digest512(domain, message), sig),
{
    crate::bytes::lemma_hex_encode_ascii(pk);
    crate::bytes::lemma_utf8_of_ascii(hex_encode_spec(pk));
    crate::bytes::lemma_hex_roundtrip(pk);
    crate::bytes::lemma_hex_encode_ascii(sig);
    crate::bytes::lemma_utf8_of_ascii(hex_encode_spec(sig));
    crate::bytes::lemma_hex_roundtrip(sig);
    law_decimal_value_roundtrip(sig);
}

/// Calls `str::parse::<BigUint>` (num-bigint's `from_str_radix(s, 10)`) and
/// `BigUint::to_bytes_be`. Claims what the crate's source shows: a `+` prefix
/// is dropped (a second `+` then fails as a non-digit), an empty rest or a
/// leading `_` is refused, `_` is skipped, any byte that is not a decimal
/// digit is refused, and `to_bytes_be` gives the minimal big-endian bytes
/// (`[0]` for zero).
#[verifier::external_body]
fn parse_decimal_be(s: &str) -> (r: Option<Vec<u8>>)
    ensures
        match r {
            Some(v) => decimal_parse_be(s@) == Some(v@),
            None => decimal_parse_be(s@) is None,
        },
{
    match s.parse::<BigUint>() {
        Ok(n) => Some(n.to_bytes_be()),
        Err(_) => None,
    }
}

/// Absolute Binding Signature: a number plus an absolute type code.
pub struct AbsSignature {
    /// Absolute scheme type code (87 = ML-DSA-87).
    pub scheme: u32,
    pub scheme_name: String,
    /// 512-bit message digest (lowercase hex).
    pub digest512: String,
    /// Signature read as an unsigned big-endian integer (decimal).
    pub value: String,
    /// Signature bytes (lowercase hex), the wire form.
    pub value_hex: String,
    /// Signer public key (lowercase hex).
    pub public_key: String,
}

/// `a` is the binding signature of `digest` by `sig` under `pk`.
pub open spec fn is_abs_of(a: AbsSignature, digest: Seq<u8>, sig: Seq<u8>, pk: Seq<u8>) -> bool {
    &&& a.scheme == ABS_SCHEME_ML_DSA_87
    &&& a.scheme_name@ == ABS_SCHEME_NAME@
    &&& a.digest512@ == ascii_chars(hex_encode_spec(digest))
    &&& a.value@ == decimal_digits(be_value(sig))
    &&& a.value_hex@ == ascii_chars(hex_encode_spec(sig))
    &&& a.public_key@ == ascii_chars(hex_encode_spec(pk))
}

/// `a` binds `digest` under `pk` with some ML-DSA-87-sized signature.
pub open spec fn is_signed_abs_of(a: AbsSignature, digest: Seq<u8>, pk: Seq<u8>) -> bool {
    exists|sig: Seq<u8>| sig.len() == PQ_SIGNATURE_SIZE && #[trigger] is_abs_of(a, digest, sig, pk)
}

/// `sig` preceded by zero bytes up to `len`.
pub open spec fn zero_padded(n: Seq<u8>, len: nat) -> Seq<u8> {
    Seq::new((len - n.len()) as nat, |i: int| 0u8) + n
}

/// What [`AbsSignature::verify`] decides for `a` over `domain ‖ message`.
pub open spec fn spec_abs_verify(a: AbsSignature, domain: Seq<u8>, message: Seq<u8>) -> bool {
    let digest = spec_digest512(domain, message);
    &&& a.scheme == ABS_SCHEME_ML_DSA_87
    &&& a.digest512@ == ascii_chars(hex_encode_spec(digest))
    &&& hex_decode_spec(encode_utf8(a.public_key@)) matches Some(pk)
    &&& pk.len() == PQ_PUBLIC_KEY_SIZE
    &&& hex_decode_spec(encode_utf8(a.value_hex@)) matches Some(sig)
    &&& sig.len() == PQ_SIGNATURE_SIZE
    &&& decimal_parse_be(a.value@) matches Some(n)
    &&& n.len() <= sig.len()
    &&& zero_padded(n, sig.len()) == sig
    &&& mldsa87_accepts(pk, digest, sig)
}

fn bytes_equal(a: &[u8], b: &[u8]) -> (r: bool)
    ensures
        r == (a@ == b@),
{
    crate::bytes::bytes_eq(a, b)
}

impl AbsSignature {
    /// Assemble the binding signature from a digest, signature and key.
    pub fn from_parts(digest: &[u8; 64], signature: &[u8], public_key: &[u8]) -> (r: AbsSignature)
        ensures
            is_abs_of(r, digest@, signature@, public_key@),
    {
        let value = be_to_decimal(signature);
        AbsSignature {
            scheme: ABS_SCHEME_ML_DSA_87,
            scheme_name: String::from_str(ABS_SCHEME_NAME),
            digest512: hex_encode(digest.as_slice()),
            value,
            value_hex: hex_encode(signature),
            public_key: hex_encode(public_key),
        }
    }

    /// Sign `message` under `domain` after the Blake3-512 prehash.
    pub fn sign(domain: &[u8], message: &[u8], secret_key: &[u8], public_key: &[u8]) -> (r: Result<AbsSignature, String>)
        ensures
            secret_key@.len() != PQ_SECRET_KEY_SIZE ==> r is Err,
            r matches Ok(a) ==> is_signed_abs_of(a, spec_digest512(domain@, message@), public_key@),
            r matches Ok(a) ==> (mldsa87_pair(secret_key@, public_key@) ==> spec_abs_verify(a, domain@, message@)),
    {
        let digest = digest512(domain, message);
        let sig = match sign_message(secret_key, digest.as_slice()) {
            Ok(s) => s,
            Err(e) => return Err(e),
        };
        let a = Self::from_parts(&digest, sig.as_slice(), public_key);
        proof {
            assert(sig@.len() == PQ_SIGNATURE_SIZE);
            assert(is_abs_of(a, spec_digest512(domain@, message@), sig@, public_key@));
            if mldsa87_pair(secret_key@, public_key@) {
                law_from_parts_verifies(a, domain@, message@, sig@, public_key@);
            }
        }
        Ok(a)
    }

    /// Check the binding signature: scheme ML-DSA-87, the digest of
    /// `domain ‖ message`, exact key and signature lengths, the decimal value
    /// naming the same bytes, and the ML-DSA-87 verdict.
    pub fn verify(&self, domain: &[u8], message: &[u8]) -> (r: bool)
        ensures
            r == spec_abs_verify(*self, domain@, message@),
    {
        if self.scheme != ABS_SCHEME_ML_DSA_87 {
            return false;
        }
        let digest = digest512(domain, message);
        let dh = hex_encode(digest.as_slice());
        if !(dh == self.digest512) {
            return false;
        }
        let pk = match hex_decode(self.public_key.as_str().as_bytes()) {
            Some(b) => b,
            None => return false,
        };
        if pk.len() != PQ_PUBLIC_KEY_SIZE {
            return false;
        }
        let sig = match hex_decode(self.value_hex.as_str().as_bytes()) {
            Some(b) => b,
            None => return false,
        };
        if sig.len() != PQ_SIGNATURE_SIZE {
            return false;
        }
        let n = match parse_decimal_be(self.value.as_str()) {
            Some(n) => n,
            None => return false,
        };
        if n.len() > sig.len() {
            return false;
        }
        let mut padded: Vec<u8> = Vec::new();
        let pad = sig.len() - n.len();
        let mut i: usize = 0;
        while i < pad
            invariant
                i <= pad,
                padded@ == Seq::new(i as nat, |j: int| 0u8),
            decreases pad - i,
        {
            padded.push(0u8);
            proof {
                assert(padded@ =~= Seq::new((i + 1) as nat, |j: int| 0u8));
            }
            i = i + 1;
        }
        let ghost n0 = n@;
        let mut rest = n;
        padded.append(&mut rest);
        proof {
            assert(padded@ =~= zero_padded(n0, sig@.len()));
        }
        if !bytes_equal(padded.as_slice(), sig.as_slice()) {
            return false;
        }
        verify_signature(pk.as_slice(), digest.as_slice(), sig.as_slice())
    }
}

/// Sign `message` under `domain` with the mandatory 512-bit prehash.
pub fn sign_pq512(domain: &[u8], message: &[u8], secret_key: &[u8]) -> (r: Result<Vec<u8>, String>)
    ensures
        secret_key@.len() != PQ_SECRET_KEY_SIZE ==> r is Err,
        r matches Ok(s) ==> s@.len() == PQ_SIGNATURE_SIZE,
        r matches Ok(s) ==> forall|pk: Seq<u8>| #[trigger] mldsa87_pair(secret_key@, pk)
            ==> mldsa87_accepts(pk, spec_digest512(domain@, message@), s@),
{
    let digest = digest512(domain, message);
    sign_message(secret_key, digest.as_slice())
}

/// Verify a prehashed ML-DSA-87 signature over `domain ‖ message`.
pub fn verify_pq512(domain: &[u8], message: &[u8], public_key: &[u8], signature: &[u8]) -> (r: bool)
    ensures
        r == (public_key@.len() == PQ_PUBLIC_KEY_SIZE && signature@.len() == PQ_SIGNATURE_SIZE
            && mldsa87_accepts(public_key@, spec_digest512(domain@, message@), signature@)),
{
    let digest = digest512(domain, message);
    verify_signature(public_key, digest.as_slice(), signature)
}

} // verus!
