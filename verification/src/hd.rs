//! Hierarchical derivation of ML-DSA-87 keys: master seed → domain-separated
//! Blake3 XOF → one keypair per hardened `(account, index)` path.

use vstd::prelude::*;
use vstd::string::{StringExecFns, StringSliceAdditionalSpecFns};
use crate::bytes::{ascii_chars, le32, le64, push_all, push_le32, push_le64};
use crate::crypto::{blake3_xof, blake3_xof_bytes, generate_keypair_from_seed, mldsa87_seed_keypair, PQ_SECRET_KEY_SIZE};
use crate::address::spec_encode_hash;
use crate::hash::spec_address_hash;

verus! {

/// The byte tag `hassan-hd-mldsa87-v1`.
pub open spec fn spec_hd_domain() -> Seq<u8> {
    seq![104u8, 97u8, 115u8, 115u8, 97u8, 110u8, 45u8, 104u8, 100u8, 45u8, 109u8, 108u8, 100u8, 115u8, 97u8, 56u8, 55u8, 45u8, 118u8, 49u8]
}

/// The byte tag `hassan-hd-mldsa87-v1`.
pub fn hd_domain() -> (r: Vec<u8>)
    ensures
        r@ == spec_hd_domain(),
{
    vec![104u8, 97u8, 115u8, 115u8, 97u8, 110u8, 45u8, 104u8, 100u8, 45u8, 109u8, 108u8, 100u8, 115u8, 97u8, 56u8, 55u8, 45u8, 118u8, 49u8]
}

/// The byte tag `hassan-hd-master-from-pass-v1`.
pub open spec fn spec_hd_master_tag() -> Seq<u8> {
    seq![104u8, 97u8, 115u8, 115u8, 97u8, 110u8, 45u8, 104u8, 100u8, 45u8, 109u8, 97u8, 115u8, 116u8, 101u8, 114u8, 45u8, 102u8, 114u8, 111u8, 109u8, 45u8, 112u8, 97u8, 115u8, 115u8, 45u8, 118u8, 49u8]
}

/// The byte tag `hassan-hd-master-from-pass-v1`.
pub fn hd_master_tag() -> (r: Vec<u8>)
    ensures
        r@ == spec_hd_master_tag(),
{
    vec![104u8, 97u8, 115u8, 115u8, 97u8, 110u8, 45u8, 104u8, 100u8, 45u8, 109u8, 97u8, 115u8, 116u8, 101u8, 114u8, 45u8, 102u8, 114u8, 111u8, 109u8, 45u8, 112u8, 97u8, 115u8, 115u8, 45u8, 118u8, 49u8]
}

/// The byte tag `hassan-kernel-rules-v22`.
pub open spec fn spec_kernel_rules_tag() -> Seq<u8> {
    seq![104u8, 97u8, 115u8, 115u8, 97u8, 110u8, 45u8, 107u8, 101u8, 114u8, 110u8, 101u8, 108u8, 45u8, 114u8, 117u8, 108u8, 101u8, 115u8, 45u8, 118u8, 50u8, 50u8]
}

/// The byte tag `hassan-kernel-rules-v22`.
pub fn kernel_rules_tag() -> (r: Vec<u8>)
    ensures
        r@ == spec_kernel_rules_tag(),
{
    vec![104u8, 97u8, 115u8, 115u8, 97u8, 110u8, 45u8, 107u8, 101u8, 114u8, 110u8, 101u8, 108u8, 45u8, 114u8, 117u8, 108u8, 101u8, 115u8, 45u8, 118u8, 50u8, 50u8]
}

/// Length of a derived seed and of a master seed.
pub const SEED_LEN: usize = 64;

/// The 64-byte child seed at path `m/account'/index'`.
pub open spec fn spec_derive_seed(master: Seq<u8>, account: u32, index: u32) -> Seq<u8> {
    blake3_xof(spec_hd_domain() + le64(master.len() as u64) + master + le32(account) + le32(index), 64)
}

fn array64(v: &Vec<u8>) -> (r: [u8; 64])
    requires
        v@.len() == 64,
    ensures
        r@ == v@,
{
    let mut out = [0u8; 64];
    let mut i: usize = 0;
    while i < 64
        invariant
            i <= 64,
            v@.len() == 64,
            forall|j: int| 0 <= j < i ==> out@[j] == v@[j],
        decreases 64 - i,
    {
        out[i] = v[i];
        i = i + 1;
    }
    proof {
        assert(out@ =~= v@);
    }
    out
}

/// Derive the 64-byte seed for ML-DSA key generation at `m/account'/index'`;
/// its first 32 bytes feed the key generator.
pub fn derive_seed(master: &[u8], account: u32, index: u32) -> (r: [u8; 64])
    ensures
        r@ == spec_derive_seed(master@, account, index),
{
    let mut buf = hd_domain();
    push_le64(&mut buf, master.len() as u64);
    push_all(&mut buf, master);
    push_le32(&mut buf, account);
    push_le32(&mut buf, index);
    let v = blake3_xof_bytes(buf.as_slice(), 64);
    array64(&v)
}

/// Derive `(secret, public, address)` on the hardened path; the master seed
/// must be at least 16 bytes.
pub fn derive_keypair(master: &[u8], account: u32, index: u32) -> (r: Result<(Vec<u8>, Vec<u8>, String), String>)
    ensures
        master@.len() < 16 <==> r is Err,
        r matches Err(e) ==> e@ == "master seed too short (need ≥16 bytes)"@,
        r matches Ok(t) ==> t.0@.len() == PQ_SECRET_KEY_SIZE && t.1@.len() == crate::crypto::PQ_PUBLIC_KEY_SIZE,
        r matches Ok(t) ==> crate::crypto::mldsa87_pair(t.0@, t.1@),
        r matches Ok(t) ==> {
            let kp = mldsa87_seed_keypair(spec_derive_seed(master@, account, index).subrange(0, 32));
            &&& t.0@ == kp.0
            &&& t.1@ == kp.1
            &&& t.2@ == ascii_chars(spec_encode_hash(spec_address_hash(kp.1)))
        },
{
    if master.len() < 16 {
        return Err(String::from_str("master seed too short (need ≥16 bytes)"));
    }
    let seed = derive_seed(master, account, index);
    let (sk, pk) = match generate_keypair_from_seed(seed.as_slice()) {
        Ok(kp) => kp,
        Err(e) => return Err(e),
    };
    if sk.len() != PQ_SECRET_KEY_SIZE {
        return Err(String::from_str("HD derive produced wrong secret length"));
    }
    let address = crate::address::encode_address(pk.as_slice());
    Ok((sk, pk, address))
}

/// Stretch a passphrase into a 64-byte master seed (Blake3 XOF over a fixed
/// tag, the salt and the passphrase bytes).
pub fn master_from_passphrase(passphrase: &str, salt: &[u8]) -> (r: [u8; 64])
    ensures
        r@ == blake3_xof(spec_hd_master_tag() + salt@ + passphrase.spec_bytes(), 64),
{
    let mut buf = hd_master_tag();
    push_all(&mut buf, salt);
    push_all(&mut buf, passphrase.as_bytes());
    let v = blake3_xof_bytes(buf.as_slice(), 64);
    array64(&v)
}

} // verus!
