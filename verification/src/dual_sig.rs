//! A second, hash-based signature family (SLH-DSA-SHAKE-256s, FIPS 205) for
//! algorithm diversity on infrequent high-value messages, beside ML-DSA-87.

use vstd::prelude::*;
use vstd::string::StringExecFns;
use vstd::utf8::encode_utf8;
use fips205::slh_dsa_shake_256s;
use fips205::traits::{KeyGen, SerDes, Signer, Verifier};
use crate::bytes::{ascii_chars, hex_decode, hex_decode_spec, hex_encode, hex_encode_spec};
use crate::hash::{digest512, spec_digest512};

verus! {

/// The byte tag `hassan-dual-sig-v1`.
pub open spec fn spec_dual_sig_ctx() -> Seq<u8> {
    seq![104u8, 97u8, 115u8, 115u8, 97u8, 110u8, 45u8, 100u8, 117u8, 97u8, 108u8, 45u8, 115u8, 105u8, 103u8, 45u8, 118u8, 49u8]
}

/// The byte tag `hassan-dual-sig-v1`.
pub fn dual_sig_ctx() -> (r: Vec<u8>)
    ensures
        r@ == spec_dual_sig_ctx(),
{
    vec![104u8, 97u8, 115u8, 115u8, 97u8, 110u8, 45u8, 100u8, 117u8, 97u8, 108u8, 45u8, 115u8, 105u8, 103u8, 45u8, 118u8, 49u8]
}

/// Scheme name.
pub const SCHEME_NAME: &'static str = "SLH-DSA-SHAKE-256s";
/// SLH-DSA-SHAKE-256s public key length.
pub const PUBLIC_KEY_LEN: usize = 64;
/// SLH-DSA-SHAKE-256s signature length.
pub const SIGNATURE_LEN: usize = 29792;
/// SLH-DSA-SHAKE-256s secret key length.
pub const SECRET_KEY_LEN: usize = 128;

/// The SLH-DSA-SHAKE-256s `(public, secret)` key bytes that fips205's key
/// generation derives from its three 32-byte seeds `SK.seed ‖ SK.prf ‖
/// PK.seed` (what `KG::keygen_with_seeds` computes).
pub uninterp spec fn slh_seed_keypair(seeds: Seq<u8>) -> (Seq<u8>, Seq<u8>);

/// An SLH-DSA-SHAKE-256s key pair as generated: the `(public, secret)` key
/// bytes of some 96-byte seed string.
pub open spec fn slh_pair(pk: Seq<u8>, sk: Seq<u8>) -> bool {
    &&& pk.len() == PUBLIC_KEY_LEN
    &&& sk.len() == SECRET_KEY_LEN
    &&& exists|seeds: Seq<u8>| seeds.len() == 96 && #[trigger] slh_seed_keypair(seeds) == (pk, sk)
}

/// Calls `slh_dsa_shake_256s::try_keygen` (OS randomness) and
/// `SerDes::into_bytes`. `try_keygen` draws `SK.seed`, `SK.prf` and `PK.seed`
/// in that order and runs the same internal key generation as
/// `keygen_with_seeds`, so a produced pair is the pair of some seed string;
/// which one is random. An error when the OS RNG fails.
#[verifier::external_body]
fn slh_keygen() -> (r: Result<(Vec<u8>, Vec<u8>), String>)
    ensures
        r matches Ok(kp) ==> kp.0@.len() == PUBLIC_KEY_LEN && kp.1@.len() == SECRET_KEY_LEN
            && exists|seeds: Seq<u8>| seeds.len() == 96 && #[trigger] slh_seed_keypair(seeds) == (kp.0@, kp.1@),
{
    match slh_dsa_shake_256s::try_keygen() {
        Ok((pk, sk)) => Ok((pk.into_bytes().to_vec(), sk.into_bytes().to_vec())),
        Err(e) => Err(format!("SLH-DSA keygen failed: {e}")),
    }
}

/// Calls `PrivateKey::try_from_bytes` and hedged `Signer::try_sign` with the
/// context `ctx`. Claims: a key of the wrong length or a context over 255
/// bytes is an error; a produced signature has the scheme's length; and, by
/// the correctness of SLH-DSA (FIPS 205, asserted by the crate's own
/// sign-then-verify tests), the public key generated together with this
/// secret key accepts it over `msg` with the same context. The signature
/// bytes depend on fresh randomness and are not stated.
#[verifier::external_body]
fn slh_sign(sk: &[u8], msg: &[u8], ctx: &[u8]) -> (r: Result<Vec<u8>, String>)
    ensures
        sk@.len() != SECRET_KEY_LEN ==> r is Err,
        ctx@.len() > 255 ==> r is Err,
        r matches Ok(s) ==> s@.len() == SIGNATURE_LEN,
        r matches Ok(s) ==> forall|pk: Seq<u8>| #[trigger] slh_pair(pk, sk@) ==> slh_accepts(pk, msg@, s@, ctx@),
{
    let bytes: [u8; SECRET_KEY_LEN] = match sk.try_into() {
        Ok(b) => b,
        Err(_) => return Err(String::from("SLH-DSA secret key has the wrong length")),
    };
    let key = match slh_dsa_shake_256s::PrivateKey::try_from_bytes(&bytes) {
        Ok(k) => k,
        Err(e) => return Err(format!("SLH-DSA sign failed: {e}")),
    };
    match key.try_sign(msg, ctx, true) {
        Ok(sig) => Ok(sig.to_vec()),
        Err(e) => Err(format!("SLH-DSA sign failed: {e}")),
    }
}

/// The SLH-DSA-SHAKE-256s verdict on well-sized key and signature bytes.
pub uninterp spec fn slh_accepts(pk: Seq<u8>, msg: Seq<u8>, sig: Seq<u8>, ctx: Seq<u8>) -> bool;

/// Calls `PublicKey::try_from_bytes` and `Verifier::verify` with context
/// `ctx`. Claims: wrong lengths are rejected; otherwise the verdict is the
/// named function of the four byte strings.
#[verifier::external_body]
fn slh_verify(pk: &[u8], msg: &[u8], sig: &[u8], ctx: &[u8]) -> (r: bool)
    ensures
        r == (pk@.len() == PUBLIC_KEY_LEN && sig@.len() == SIGNATURE_LEN && slh_accepts(pk@, msg@, sig@, ctx@)),
{
    let pk_arr: [u8; PUBLIC_KEY_LEN] = match pk.try_into() {
        Ok(b) => b,
        Err(_) => return false,
    };
    let key = match slh_dsa_shake_256s::PublicKey::try_from_bytes(&pk_arr) {
        Ok(k) => k,
        Err(_) => return false,
    };
    let sig_arr: [u8; SIGNATURE_LEN] = match sig.try_into() {
        Ok(b) => b,
        Err(_) => return false,
    };
    key.verify(msg, &sig_arr, ctx)
}

/// An SLH-DSA keypair as raw bytes.
#[derive(Clone)]
pub struct DualSigKeypair {
    pub public_key: Vec<u8>,
    secret_key: Vec<u8>,
}

impl DualSigKeypair {
    /// The public key bytes.
    pub closed spec fn public(&self) -> Seq<u8> {
        self.public_key@
    }

    /// The secret key bytes.
    pub closed spec fn secret(&self) -> Seq<u8> {
        self.secret_key@
    }

    pub closed spec fn well_sized(&self) -> bool {
        self.public_key@.len() == PUBLIC_KEY_LEN && self.secret_key@.len() == SECRET_KEY_LEN
    }

    /// The two keys were generated together.
    pub open spec fn genuine(&self) -> bool {
        slh_pair(self.public(), self.secret())
    }
}

/// Generate a fresh SLH-DSA-SHAKE-256s keypair.
pub fn generate_keypair() -> (r: Result<DualSigKeypair, String>)
    ensures
        r matches Ok(kp) ==> kp.well_sized() && kp.genuine(),
{
    match slh_keygen() {
        Ok((pk, sk)) => Ok(DualSigKeypair { public_key: pk, secret_key: sk }),
        Err(e) => Err(e),
    }
}

/// Sign `message` under `domain` (after the Blake3-512 prehash) with the
/// keypair's SLH-DSA key.
pub fn sign(domain: &[u8], message: &[u8], keypair: &DualSigKeypair) -> (r: Result<Vec<u8>, String>)
    ensures
        keypair.secret().len() != SECRET_KEY_LEN ==> r is Err,
        r matches Ok(s) ==> s@.len() == SIGNATURE_LEN,
        r matches Ok(s) ==> (keypair.genuine() ==> spec_dual_verify(domain@, message@, keypair.public(), s@)),
{
    let digest = digest512(domain, message);
    let ctx = dual_sig_ctx();
    slh_sign(keypair.secret_key.as_slice(), digest.as_slice(), ctx.as_slice())
}

/// The SLH-DSA verdict over the prehash of `domain ‖ message`.
pub open spec fn spec_dual_verify(domain: Seq<u8>, message: Seq<u8>, pk: Seq<u8>, sig: Seq<u8>) -> bool {
    pk.len() == PUBLIC_KEY_LEN && sig.len() == SIGNATURE_LEN
        && slh_accepts(pk, spec_digest512(domain, message), sig, spec_dual_sig_ctx())
}

/// Verify an SLH-DSA signature made by [`sign`].
pub fn verify(domain: &[u8], message: &[u8], public_key: &[u8], signature: &[u8]) -> (r: bool)
    ensures
        r == spec_dual_verify(domain@, message@, public_key@, signature@),
{
    if public_key.len() != PUBLIC_KEY_LEN || signature.len() != SIGNATURE_LEN {
        return false;
    }
    let digest = digest512(domain, message);
    let ctx = dual_sig_ctx();
    slh_verify(public_key, digest.as_slice(), signature, ctx.as_slice())
}

/// The secondary signature with its public key, both in hex.
#[derive(Clone, Debug)]
pub struct DualSignature {
    pub scheme: String,
    pub public_key_hex: String,
    pub signature_hex: String,
}

/// What [`DualSignature::verify`] decides.
pub open spec fn spec_dual_signature_ok(d: DualSignature, domain: Seq<u8>, message: Seq<u8>) -> bool {
    &&& hex_decode_spec(encode_utf8(d.public_key_hex@)) matches Some(pk)
    &&& hex_decode_spec(encode_utf8(d.signature_hex@)) matches Some(sig)
    &&& spec_dual_verify(domain, message, pk, sig)
}

impl DualSignature {
    /// Sign and wrap.
    pub fn create(domain: &[u8], message: &[u8], keypair: &DualSigKeypair) -> (r: Result<DualSignature, String>)
        ensures
            keypair.secret().len() != SECRET_KEY_LEN ==> r is Err,
            r matches Ok(d) ==> d.scheme@ == SCHEME_NAME@
                && d.public_key_hex@ == ascii_chars(hex_encode_spec(keypair.public()))
                && exists|s: Seq<u8>| s.len() == SIGNATURE_LEN && #[trigger] ascii_chars(hex_encode_spec(s)) == d.signature_hex@,
            r matches Ok(d) ==> (keypair.genuine() ==> spec_dual_signature_ok(d, domain@, message@)),
    {
        let signature = match sign(domain, message, keypair) {
            Ok(s) => s,
            Err(e) => return Err(e),
        };
        let d = DualSignature {
            scheme: String::from_str(SCHEME_NAME),
            public_key_hex: hex_encode(keypair.public_key.as_slice()),
            signature_hex: hex_encode(signature.as_slice()),
        };
        proof {
            assert(ascii_chars(hex_encode_spec(signature@)) == d.signature_hex@);
            crate::bytes::lemma_hex_encode_ascii(keypair.public());
            crate::bytes::lemma_utf8_of_ascii(hex_encode_spec(keypair.public()));
            crate::bytes::lemma_hex_roundtrip(keypair.public());
            crate::bytes::lemma_hex_encode_ascii(signature@);
            crate::bytes::lemma_utf8_of_ascii(hex_encode_spec(signature@));
            crate::bytes::lemma_hex_roundtrip(signature@);
        }
        Ok(d)
    }

    /// Decode and verify.
    pub fn verify(&self, domain: &[u8], message: &[u8]) -> (r: bool)
        ensures
            r == spec_dual_signature_ok(*self, domain@, message@),
    {
        let pk = match hex_decode(self.public_key_hex.as_str().as_bytes()) {
            Some(b) => b,
            None => return false,
        };
        let sig = match hex_decode(self.signature_hex.as_str().as_bytes()) {
            Some(b) => b,
            None => return false,
        };
        verify(domain, message, pk.as_slice(), sig.as_slice())
    }
}

} // verus!
