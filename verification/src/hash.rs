//! The 512-bit consensus digest and the domain-separated Blake3-512 hashes
//! built on it.

use vstd::prelude::*;
use crate::bytes::{bytes_eq, bytes_lt, lex_lt, push_all};
use crate::crypto::{blake3_xof, blake3_xof_bytes};

verus! {

/// Size in bytes of every consensus digest (512 bits).
pub const HASH_SIZE: usize = 64;

/// 512-bit consensus digest.
#[derive(Clone, Copy, PartialEq, Eq, PartialOrd, Ord, Hash, Debug)]
pub struct Hash(pub [u8; 64]);

impl View for Hash {
    type V = Seq<u8>;

    open spec fn view(&self) -> Seq<u8> {
        self.0@
    }
}

impl Hash {
    /// The all-zero digest.
    pub fn zero() -> (r: Hash)
        ensures
            r@ == Seq::new(64, |i: int| 0u8),
    {
        let r = Hash([0u8; 64]);
        proof {
            assert(r@ =~= Seq::new(64, |i: int| 0u8));
        }
        r
    }

    /// The all-ones digest (the easiest proof-of-work target).
    pub fn max() -> (r: Hash)
        ensures
            r@ == Seq::new(64, |i: int| 255u8),
    {
        let r = Hash([255u8; 64]);
        proof {
            assert(r@ =~= Seq::new(64, |i: int| 255u8));
        }
        r
    }

    /// The digest bytes.
    pub fn as_bytes(&self) -> (r: &[u8; 64])
        ensures
            r@ == self@,
    {
        &self.0
    }

    /// The digest bytes as a slice.
    pub fn as_slice(&self) -> (r: &[u8])
        ensures
            r@ == self@,
    {
        self.0.as_slice()
    }

    /// Byte-wise equality.
    pub fn equals(&self, other: &Hash) -> (r: bool)
        ensures
            r == (self@ == other@),
    {
        bytes_eq(self.0.as_slice(), other.0.as_slice())
    }

    /// Lexicographic (big-endian numeric) strict order.
    pub fn less_than(&self, other: &Hash) -> (r: bool)
        ensures
            r == lex_lt(self@, other@),
    {
        bytes_lt(self.0.as_slice(), other.0.as_slice())
    }
}

/// Two digests with equal bytes are the same value.
pub proof fn lemma_hash_view_injective(a: Hash, b: Hash)
    requires
        a@ == b@,
    ensures
        a == b,
{
    assert(a.0 =~= b.0);
}

/// Copy a 64-byte vector into a digest.
pub fn hash_from_vec(v: &Vec<u8>) -> (r: Hash)
    requires
        v@.len() == 64,
    ensures
        r@ == v@,
{
    let mut out = [0u8; 64];
    let mut i: usize = 0;
    while i < 64
        invariant
            i <= 64,
            v@.len() == 64,
            forall|j: int| 0 <= j < i ==> out@[j] == v@[j],
        decreases 64 - i,
    {
        out[i] = v[i];
        i = i + 1;
    }
    let r = Hash(out);
    proof {
        assert(r@ =~= v@);
    }
    r
}

/// The byte tag `hassan-pq-512-v1`.
pub open spec fn spec_pq512_prefix() -> Seq<u8> {
    seq![104u8, 97u8, 115u8, 115u8, 97u8, 110u8, 45u8, 112u8, 113u8, 45u8, 53u8, 49u8, 50u8, 45u8, 118u8, 49u8]
}

/// The byte tag `hassan-pq-512-v1`.
pub fn pq512_prefix() -> (r: Vec<u8>)
    ensures
        r@ == spec_pq512_prefix(),
{
    vec![104u8, 97u8, 115u8, 115u8, 97u8, 110u8, 45u8, 112u8, 113u8, 45u8, 53u8, 49u8, 50u8, 45u8, 118u8, 49u8]
}

/// Domain-separated Blake3-512: the XOF over `hassan-pq-512-v1 ‖ domain ‖ message`.
pub open spec fn spec_digest512(domain: Seq<u8>, message: Seq<u8>) -> Seq<u8> {
    blake3_xof(spec_pq512_prefix() + domain + message, 64)
}

/// Domain-separated Blake3-512 of arbitrary message bytes.
pub fn digest512(domain: &[u8], message: &[u8]) -> (r: [u8; 64])
    ensures
        r@ == spec_digest512(domain@, message@),
{
    let mut buf = pq512_prefix();
    push_all(&mut buf, domain);
    push_all(&mut buf, message);
    let v = blake3_xof_bytes(buf.as_slice(), 64);
    hash_from_vec(&v).0
}

/// Same as [`digest512`], as a [`Hash`].
pub fn digest512_hash(domain: &[u8], message: &[u8]) -> (r: Hash)
    ensures
        r@ == spec_digest512(domain@, message@),
{
    Hash(digest512(domain, message))
}

/// The byte tag `raw`.
pub open spec fn spec_raw_tag() -> Seq<u8> {
    seq![114u8, 97u8, 119u8]
}

/// The byte tag `raw`.
pub fn raw_tag() -> (r: Vec<u8>)
    ensures
        r@ == spec_raw_tag(),
{
    vec![114u8, 97u8, 119u8]
}
/// The byte tag `address`.
pub open spec fn spec_address_tag() -> Seq<u8> {
    seq![97u8, 100u8, 100u8, 114u8, 101u8, 115u8, 115u8]
}

/// The byte tag `address`.
pub fn address_tag() -> (r: Vec<u8>)
    ensures
        r@ == spec_address_tag(),
{
    vec![97u8, 100u8, 100u8, 114u8, 101u8, 115u8, 115u8]
}

/// Blake3-512 digest under the `raw` domain.
pub fn hash512(data: &[u8]) -> (r: Hash)
    ensures
        r@ == spec_digest512(spec_raw_tag(), data@),
{
    let d = raw_tag();
    digest512_hash(d.as_slice(), data)
}

/// The 512-bit address digest of a public key (`address` domain).
pub open spec fn spec_address_hash(pubkey: Seq<u8>) -> Seq<u8> {
    spec_digest512(spec_address_tag(), pubkey)
}

/// The raw 512-bit address digest behind the bech32m address.
pub fn address_hash(pubkey: &[u8]) -> (r: Hash)
    ensures
        r@ == spec_address_hash(pubkey@),
{
    let d = address_tag();
    digest512_hash(d.as_slice(), pubkey)
}

} // verus!
