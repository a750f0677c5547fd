//! Trusted boundary to the hashing and signature crates, plus the wall clock.
//!
//! Every item here is believed, not proved: each doc comment says which
//! outside function it calls and what its contract claims of it.

use vstd::prelude::*;
use vstd::string::StringExecFns;
use fips204::ml_dsa_87;
use fips204::traits::{KeyGen, SerDes, Signer, Verifier};

verus! {

/// ML-DSA-87 (FIPS 204) public key size in bytes.
pub const PQ_PUBLIC_KEY_SIZE: usize = 2592;
/// ML-DSA-87 secret key size in bytes.
pub const PQ_SECRET_KEY_SIZE: usize = 4896;
/// ML-DSA-87 signature size in bytes.
pub const PQ_SIGNATURE_SIZE: usize = 4627;
/// Bits of the prehash every signature is made over.
pub const PQ_DIGEST_BITS: u32 = 512;

/// The first `out_len` bytes of Blake3's extendable output over `input`.
pub uninterp spec fn blake3_xof(input: Seq<u8>, out_len: nat) -> Seq<u8>;

/// Calls `blake3::Hasher::new`, `update(input)`, `finalize_xof` and
/// `OutputReader::fill` on an `out_len`-byte buffer. Claims: the output is
/// `blake3_xof(input, out_len)` (a deterministic function of the bytes; the
/// crate documents that incremental updates equal one update over the
/// concatenation) and it is exactly `out_len` bytes long.
#[verifier::external_body]
pub(crate) fn blake3_xof_bytes(input: &[u8], out_len: usize) -> (r: Vec<u8>)
    ensures
        r@ == blake3_xof(input@, out_len as nat),
        r@.len() == out_len,
{
    let mut hasher = blake3::Hasher::new();
    hasher.update(input);
    let mut out = vec![0u8; out_len];
    hasher.finalize_xof().fill(&mut out);
    out
}

/// The verdict of ML-DSA-87 verification (empty context) on well-sized
/// public key and signature bytes.
pub uninterp spec fn mldsa87_accepts(pk: Seq<u8>, msg: Seq<u8>, sig: Seq<u8>) -> bool;

/// Verify an ML-DSA-87 signature over `msg`; never panics on malformed input.
/// Calls `ml_dsa_87::PublicKey::try_from_bytes` and `Verifier::verify` with an
/// empty context. Claims: keys or signatures of the wrong length are
/// rejected (the array conversion fails), otherwise the result is the named
/// verdict, which depends on the three byte strings alone.
#[verifier::external_body]
pub fn verify_signature(pk: &[u8], msg: &[u8], sig: &[u8]) -> (r: bool)
    ensures
        r == (pk@.len() == PQ_PUBLIC_KEY_SIZE && sig@.len() == PQ_SIGNATURE_SIZE
            && mldsa87_accepts(pk@, msg@, sig@)),
{
    let pk_bytes: [u8; PQ_PUBLIC_KEY_SIZE] = match pk.try_into() {
        Ok(b) => b,
        Err(_) => return false,
    };
    let verifying_key = match ml_dsa_87::PublicKey::try_from_bytes(pk_bytes) {
        Ok(vk) => vk,
        Err(_) => return false,
    };
    let sig_bytes: [u8; PQ_SIGNATURE_SIZE] = match sig.try_into() {
        Ok(b) => b,
        Err(_) => return false,
    };
    verifying_key.verify(msg, &sig_bytes, &[])
}

/// Sign `msg` directly with an ML-DSA-87 secret key.
/// Calls `ml_dsa_87::PrivateKey::try_from_bytes` and `Signer::try_sign`
/// (hedged signing with the OS RNG, empty context). Claims what holds of
/// every outcome: a key of the wrong length is an error; a produced
/// signature has the ML-DSA-87 signature length; and, by the correctness of
/// ML-DSA (FIPS 204, asserted by the crate's own sign-then-verify tests), the
/// public key generated together with this secret key accepts it over `msg`
/// with the same (empty) context. The signature bytes themselves depend on
/// fresh randomness and are not stated.
#[verifier::external_body]
pub fn sign_message(sk: &[u8], msg: &[u8]) -> (r: Result<Vec<u8>, String>)
    ensures
        sk@.len() != PQ_SECRET_KEY_SIZE ==> r is Err,
        r matches Ok(s) ==> s@.len() == PQ_SIGNATURE_SIZE,
        r matches Ok(s) ==> forall|pk: Seq<u8>| #[trigger] mldsa87_pair(sk@, pk) ==> mldsa87_accepts(pk, msg@, s@),
{
    let bytes: [u8; PQ_SECRET_KEY_SIZE] = sk
        .try_into()
        .map_err(|_| format!("signing key must be exactly {} bytes", PQ_SECRET_KEY_SIZE))?;
    let secret_key = ml_dsa_87::PrivateKey::try_from_bytes(bytes).map_err(|e| e.to_string())?;
    let signature = secret_key.try_sign(msg, &[]).map_err(|e| e.to_string())?;
    Ok(signature.to_vec())
}

/// The ML-DSA-87 `(secret, public)` key bytes derived from a 32-byte seed.
pub uninterp spec fn mldsa87_seed_keypair(seed: Seq<u8>) -> (Seq<u8>, Seq<u8>);

/// An ML-DSA-87 key pair as generated: the `(secret, public)` key bytes
/// that key generation gives for some 32-byte seed.
pub open spec fn mldsa87_pair(sk: Seq<u8>, pk: Seq<u8>) -> bool {
    &&& sk.len() == PQ_SECRET_KEY_SIZE
    &&& pk.len() == PQ_PUBLIC_KEY_SIZE
    &&& exists|seed: Seq<u8>| seed.len() == 32 && #[trigger] mldsa87_seed_keypair(seed) == (sk, pk)
}

/// Calls `ml_dsa_87::KG::keygen_from_seed` and `SerDes::into_bytes`. Claims:
/// the key pair is a deterministic function of the seed, with the ML-DSA-87
/// key lengths.
#[verifier::external_body]
pub(crate) fn mldsa87_keygen_from_seed(seed: &[u8; 32]) -> (r: (Vec<u8>, Vec<u8>))
    ensures
        (r.0@, r.1@) == mldsa87_seed_keypair(seed@),
        r.0@.len() == PQ_SECRET_KEY_SIZE,
        r.1@.len() == PQ_PUBLIC_KEY_SIZE,
{
    let (public_key, secret_key) = ml_dsa_87::KG::keygen_from_seed(seed);
    (secret_key.into_bytes().to_vec(), public_key.into_bytes().to_vec())
}

/// Deterministic ML-DSA-87 keypair `(secret, public)` from the first 32
/// bytes of `seed`; shorter seeds are refused.
pub fn generate_keypair_from_seed(seed: &[u8]) -> (r: Result<(Vec<u8>, Vec<u8>), String>)
    ensures
        seed@.len() < 32 <==> r is Err,
        r matches Ok(kp) ==> (kp.0@, kp.1@) == mldsa87_seed_keypair(seed@.subrange(0, 32)),
        r matches Ok(kp) ==> kp.0@.len() == PQ_SECRET_KEY_SIZE && kp.1@.len() == PQ_PUBLIC_KEY_SIZE,
        r matches Ok(kp) ==> mldsa87_pair(kp.0@, kp.1@),
{
    if seed.len() < 32 {
        return Err(String::from_str("seed must be at least 32 bytes"));
    }
    let mut xi = [0u8; 32];
    let mut i: usize = 0;
    while i < 32
        invariant
            i <= 32,
            seed@.len() >= 32,
            forall|j: int| 0 <= j < i ==> xi@[j] == seed@[j],
        decreases 32 - i,
    {
        xi[i] = seed[i];
        i = i + 1;
    }
    proof {
        assert(xi@ =~= seed@.subrange(0, 32));
    }
    let kp = mldsa87_keygen_from_seed(&xi);
    proof {
        assert(mldsa87_seed_keypair(xi@) == (kp.0@, kp.1@));
    }
    Ok(kp)
}

/// Generates a fresh ML-DSA-87 (FIPS 204) keypair `(secret, public)` with
/// the OS RNG: calls `ml_dsa_87::try_keygen` and `SerDes::into_bytes`.
/// `try_keygen` draws a 32-byte seed and runs the same internal key
/// generation as `keygen_from_seed`, so a produced pair is the pair of some
/// seed; which seed is random. An error when the OS RNG fails.
#[verifier::external_body]
pub fn generate_keypair() -> (r: Result<(Vec<u8>, Vec<u8>), String>)
    ensures
        r matches Ok(kp) ==> mldsa87_pair(kp.0@, kp.1@),
{
    match ml_dsa_87::try_keygen() {
        Ok((public_key, secret_key)) => Ok((secret_key.into_bytes().to_vec(), public_key.into_bytes().to_vec())),
        Err(e) => Err(format!("ML-DSA-87 keygen failed: {e}")),
    }
}

/// Milliseconds since the Unix epoch (`std::time::SystemTime::now`). Nothing
/// is claimed of the value: it is the wall clock.
#[verifier::external_body]
pub fn now_ms() -> u64 {
    std::time::SystemTime::now()
        .duration_since(std::time::UNIX_EPOCH)
        .unwrap_or_default()
        .as_millis() as u64
}

} // verus!
