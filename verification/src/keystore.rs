//! Encrypted keystore: Argon2id key derivation and ChaCha20-Poly1305
//! sealing of a secret key, with the checks applied when a keystore is opened.

use vstd::prelude::*;
use chacha20poly1305::aead::{Aead, KeyInit};
use rand::RngCore;
use vstd::string::StringSliceAdditionalSpecFns;
use vstd::utf8::encode_utf8;
use crate::bytes::{ascii_chars, hex_decode, hex_decode_spec, hex_encode, hex_encode_spec};

verus! {

/// Environment variable that holds the keystore password.
pub const PASSWORD_ENV: &'static str = "HASSAN_WALLET_PASSWORD";

/// Argon2id memory cost in KiB (64 MiB).
pub const M_COST_KIB: u32 = 65536;
/// Argon2id passes.
pub const T_COST: u32 = 3;
/// Argon2id lanes.
pub const P_COST: u32 = 1;
/// Largest memory cost a keystore may ask for (1 GiB).
pub const MAX_M_COST_KIB: u32 = 1048576;
/// Largest pass or lane count a keystore may ask for.
pub const MAX_T_P_COST: u32 = 16;

/// The sealed form of a secret, field by field as a keystore file holds it.
/// Fields that a file may lack, or hold with the wrong type, are `None`;
/// hex fields read as the empty string when absent.
#[derive(Clone, Debug)]
pub struct KeystoreCrypto {
    pub kdf: Option<String>,
    pub argon2_version: Option<u64>,
    pub m_cost: Option<u64>,
    pub t_cost: Option<u64>,
    pub p_cost: Option<u64>,
    pub cipher: Option<String>,
    pub salt: String,
    pub nonce: String,
    pub ciphertext: String,
}

/// The 32-byte Argon2id (version 0x13) key for `password` and `salt`.
pub uninterp spec fn argon2id_key(password: Seq<u8>, salt: Seq<u8>, m_cost: u32, t_cost: u32, p_cost: u32) -> Seq<u8>;

/// ChaCha20-Poly1305 ciphertext (with its 16-byte tag) of `plaintext`.
pub uninterp spec fn chacha20poly1305_seal(key: Seq<u8>, nonce: Seq<u8>, plaintext: Seq<u8>) -> Seq<u8>;

/// ChaCha20-Poly1305 opening of `ciphertext`; `None` when it does not authenticate.
pub uninterp spec fn chacha20poly1305_open(key: Seq<u8>, nonce: Seq<u8>, ciphertext: Seq<u8>) -> Option<Seq<u8>>;

/// Whether Argon2id accepts these parameters and inputs for a 32-byte key:
/// at least 8 KiB and 8 KiB per lane, at least one pass, 1 to 0xFFFFFF
/// lanes, a salt of 8 bytes or more, and lengths that fit in 32 bits.
pub open spec fn argon2_accepts(password_len: nat, salt_len: nat, m_cost: u32, t_cost: u32, p_cost: u32) -> bool {
    &&& 8 <= m_cost
    &&& 8 * p_cost <= m_cost
    &&& 1 <= t_cost
    &&& 1 <= p_cost <= 0xFF_FFFF
    &&& 8 <= salt_len <= u32::MAX
    &&& password_len <= u32::MAX
}

/// Argon2id key derivation (`argon2::Params::new` then
/// `Argon2::hash_password_into` with version 0x13). The contract claims: it
/// succeeds exactly when [`argon2_accepts`] holds, and the key is then the
/// named Argon2id output. The error text is not stated.
#[verifier::external_body]
fn derive_key(password: &[u8], salt: &[u8], m_cost: u32, t_cost: u32, p_cost: u32) -> (r: Result<[u8; 32], String>)
    requires
        m_cost <= MAX_M_COST_KIB,
        t_cost <= MAX_T_P_COST,
        p_cost <= MAX_T_P_COST,
    ensures
        r is Ok <==> argon2_accepts(password@.len(), salt@.len(), m_cost, t_cost, p_cost),
        r matches Ok(k) ==> k@ == argon2id_key(password@, salt@, m_cost, t_cost, p_cost),
{
    let params = argon2::Params::new(m_cost, t_cost, p_cost, Some(32)).map_err(|e| format!("argon2 params: {e}"))?;
    let a2 = argon2::Argon2::new(argon2::Algorithm::Argon2id, argon2::Version::V0x13, params);
    let mut key = [0u8; 32];
    a2.hash_password_into(password, salt, &mut key).map_err(|e| format!("argon2 kdf: {e}"))?;
    Ok(key)
}

/// ChaCha20-Poly1305 encryption (`Aead::encrypt`, no associated data). The
/// contract claims: the output is the named ciphertext, 16 bytes longer than
/// the plaintext, and opening it with the same key and nonce gives the
/// plaintext back (the AEAD's correctness).
#[verifier::external_body]
fn seal(key: &[u8; 32], nonce: &[u8; 12], plaintext: &[u8]) -> (r: Vec<u8>)
    requires
        plaintext@.len() <= u32::MAX,
    ensures
        r@ == chacha20poly1305_seal(key@, nonce@, plaintext@),
        r@.len() == plaintext@.len() + 16,
        chacha20poly1305_open(key@, nonce@, r@) == Some(plaintext@),
{
    let cipher = chacha20poly1305::ChaCha20Poly1305::new_from_slice(key).expect("32-byte key");
    cipher.encrypt(chacha20poly1305::Nonce::from_slice(nonce), plaintext).expect("plaintext within the cipher's limit")
}

/// ChaCha20-Poly1305 decryption (`Aead::decrypt`, no associated data). The
/// contract claims: the result is the named opening of the ciphertext.
#[verifier::external_body]
fn open(key: &[u8; 32], nonce: &[u8], ciphertext: &[u8]) -> (r: Option<Vec<u8>>)
    requires
        nonce@.len() == 12,
    ensures
        match r {
            Some(p) => chacha20poly1305_open(key@, nonce@, ciphertext@) == Some(p@),
            None => chacha20poly1305_open(key@, nonce@, ciphertext@) is None,
        },
{
    let cipher = chacha20poly1305::ChaCha20Poly1305::new_from_slice(key).expect("32-byte key");
    cipher.decrypt(chacha20poly1305::Nonce::from_slice(nonce), ciphertext).ok()
}

/// Random bytes from the operating system (`rand::rngs::OsRng` through
/// `RngCore::try_fill_bytes`, which reports a failing source as an error
/// instead of panicking). The contract claims only the length.
#[verifier::external_body]
fn random_bytes(n: usize) -> (r: Result<Vec<u8>, String>)
    ensures
        r matches Ok(v) ==> v@.len() == n,
{
    let mut v = vec![0u8; n];
    match rand::rngs::OsRng.try_fill_bytes(&mut v) {
        Ok(()) => Ok(v),
        Err(e) => Err(format!("random source failed: {e}")),
    }
}

/// The value of a cost field, with its default when absent, cut to 32 bits.
pub open spec fn cost_of(x: Option<u64>, default: u32) -> u32 {
    match x {
        Some(v) => v as u32,
        None => default,
    }
}

/// Bytes of a string view.
pub open spec fn text_bytes(s: Seq<char>) -> Seq<u8> {
    encode_utf8(s)
}

/// What opening a keystore with `password` gives: `Some(Ok(secret))`,
/// `Some(Err(message))` for a refused file or a failed authentication, and
/// `None` where Argon2id refuses the file's salt or parameters (an error
/// whose text comes from Argon2id).
pub open spec fn keystore_outcome(password: Seq<u8>, c: KeystoreCrypto) -> Option<Result<Seq<u8>, Seq<char>>> {
    let m = cost_of(c.m_cost, M_COST_KIB);
    let t = cost_of(c.t_cost, T_COST);
    let p = cost_of(c.p_cost, P_COST);
    if !(c.kdf matches Some(k) && k@ == "argon2id"@) {
        Some(Err("unsupported keystore KDF (expected argon2id)"@))
    } else if !(c.cipher matches Some(k) && k@ == "chacha20poly1305"@) {
        Some(Err("unsupported keystore cipher"@))
    } else if m > MAX_M_COST_KIB {
        Some(Err("keystore argon2 m_cost too large (> 1 GiB)"@))
    } else if t > MAX_T_P_COST || p > MAX_T_P_COST {
        Some(Err("keystore argon2 t_cost/p_cost too large (> 16)"@))
    } else {
        match hex_decode_spec(text_bytes(c.salt@)) {
            None => Some(Err("bad salt"@)),
            Some(salt) => match hex_decode_spec(text_bytes(c.nonce@)) {
                None => Some(Err("bad nonce"@)),
                Some(nonce) => if nonce.len() != 12 {
                    Some(Err("bad nonce length"@))
                } else {
                    match hex_decode_spec(text_bytes(c.ciphertext@)) {
                        None => Some(Err("bad ciphertext"@)),
                        Some(ct) => if !argon2_accepts(password.len(), salt.len(), m, t, p) {
                            None
                        } else {
                            match chacha20poly1305_open(argon2id_key(password, salt, m, t, p), nonce, ct) {
                                Some(secret) => Some(Ok(secret)),
                                None => Some(Err("wrong password or corrupt keystore (authentication failed)"@)),
                            }
                        }
                    }
                }
            },
        }
    }
}

fn eq_text(a: &Option<String>, b: &str) -> (r: bool)
    ensures
        r == (a matches Some(k) && k@ == b@),
{
    match a {
        Some(k) => crate::addrman::str_eq(k.as_str(), b),
        None => false,
    }
}

fn cost_value(x: Option<u64>, default: u32) -> (r: u32)
    ensures
        r == cost_of(x, default),
{
    match x {
        Some(v) => v as u32,
        None => default,
    }
}

/// Open a keystore with `password`: refuse an unknown KDF or cipher, costs
/// beyond the limits and malformed hex fields, derive the key with Argon2id
/// and authenticate-decrypt the secret.
pub fn decrypt(password: &str, c: &KeystoreCrypto) -> (r: Result<Vec<u8>, String>)
    ensures
        match keystore_outcome(password.spec_bytes(), *c) {
            Some(Ok(secret)) => r matches Ok(v) && v@ == secret,
            Some(Err(e)) => r matches Err(m) && m@ == e,
            None => r is Err,
        },
{
    proof {
        reveal_strlit("argon2id");
        reveal_strlit("chacha20poly1305");
    }
    if !eq_text(&c.kdf, "argon2id") {
        return Err(String::from_str("unsupported keystore KDF (expected argon2id)"));
    }
    if !eq_text(&c.cipher, "chacha20poly1305") {
        return Err(String::from_str("unsupported keystore cipher"));
    }
    let m = cost_value(c.m_cost, M_COST_KIB);
    let t = cost_value(c.t_cost, T_COST);
    let p = cost_value(c.p_cost, P_COST);
    if m > MAX_M_COST_KIB {
        return Err(String::from_str("keystore argon2 m_cost too large (> 1 GiB)"));
    }
    if t > MAX_T_P_COST || p > MAX_T_P_COST {
        return Err(String::from_str("keystore argon2 t_cost/p_cost too large (> 16)"));
    }
    let salt = match hex_decode(c.salt.as_str().as_bytes()) {
        Some(v) => v,
        None => return Err(String::from_str("bad salt")),
    };
    let nonce = match hex_decode(c.nonce.as_str().as_bytes()) {
        Some(v) => v,
        None => return Err(String::from_str("bad nonce")),
    };
    if nonce.len() != 12 {
        return Err(String::from_str("bad nonce length"));
    }
    let ct = match hex_decode(c.ciphertext.as_str().as_bytes()) {
        Some(v) => v,
        None => return Err(String::from_str("bad ciphertext")),
    };
    let key = match derive_key(password.as_bytes(), salt.as_slice(), m, t, p) {
        Ok(k) => k,
        Err(e) => return Err(e),
    };
    match open(&key, nonce.as_slice(), ct.as_slice()) {
        Some(secret) => Ok(secret),
        None => Err(String::from_str("wrong password or corrupt keystore (authentication failed)")),
    }
}

/// The keystore fields for `ciphertext` sealed under Argon2id's default
/// costs with `salt` and `nonce`.
pub open spec fn sealed_fields(salt: Seq<u8>, nonce: Seq<u8>, ciphertext: Seq<u8>, c: KeystoreCrypto) -> bool {
    &&& c.kdf matches Some(k) && k@ == "argon2id"@
    &&& c.argon2_version == Some(19u64)
    &&& c.m_cost == Some(M_COST_KIB as u64)
    &&& c.t_cost == Some(T_COST as u64)
    &&& c.p_cost == Some(P_COST as u64)
    &&& c.cipher matches Some(k) && k@ == "chacha20poly1305"@
    &&& c.salt@ == ascii_chars(hex_encode_spec(salt))
    &&& c.nonce@ == ascii_chars(hex_encode_spec(nonce))
    &&& c.ciphertext@ == ascii_chars(hex_encode_spec(ciphertext))
}

/// Seal `secret` under `password` with the given salt and nonce. The result
/// opens with the same password to the same secret.
pub fn encrypt_with(password: &str, secret: &[u8], salt: &[u8; 16], nonce: &[u8; 12]) -> (r: KeystoreCrypto)
    requires
        password.spec_bytes().len() <= u32::MAX,
        secret@.len() <= u32::MAX,
    ensures
        sealed_fields(salt@, nonce@, chacha20poly1305_seal(argon2id_key(password.spec_bytes(), salt@, M_COST_KIB, T_COST, P_COST), nonce@, secret@), r),
        keystore_outcome(password.spec_bytes(), r) == Some(Ok::<Seq<u8>, Seq<char>>(secret@)),
{
    let key = match derive_key(password.as_bytes(), salt.as_slice(), M_COST_KIB, T_COST, P_COST) {
        Ok(k) => k,
        Err(_) => {
            proof {
                assert(argon2_accepts(password.spec_bytes().len(), 16, M_COST_KIB, T_COST, P_COST));
            }
            return vstd::pervasive::unreached();
        },
    };
    let ct = seal(&key, nonce, secret);
    let r = KeystoreCrypto {
        kdf: Some(String::from_str("argon2id")),
        argon2_version: Some(19),
        m_cost: Some(M_COST_KIB as u64),
        t_cost: Some(T_COST as u64),
        p_cost: Some(P_COST as u64),
        cipher: Some(String::from_str("chacha20poly1305")),
        salt: hex_encode(salt.as_slice()),
        nonce: hex_encode(nonce.as_slice()),
        ciphertext: hex_encode(ct.as_slice()),
    };
    proof {
        reveal_strlit("argon2id");
        reveal_strlit("chacha20poly1305");
        crate::bytes::lemma_hex_encode_ascii(salt@);
        crate::bytes::lemma_hex_encode_ascii(nonce@);
        crate::bytes::lemma_hex_encode_ascii(ct@);
        crate::bytes::lemma_utf8_of_ascii(hex_encode_spec(salt@));
        crate::bytes::lemma_utf8_of_ascii(hex_encode_spec(nonce@));
        crate::bytes::lemma_utf8_of_ascii(hex_encode_spec(ct@));
        crate::bytes::lemma_hex_roundtrip(salt@);
        crate::bytes::lemma_hex_roundtrip(nonce@);
        crate::bytes::lemma_hex_roundtrip(ct@);
    }
    r
}

/// Seal `secret` under `password` with a fresh random salt and nonce. Whatever
/// the random values, the result opens with the same password to the same
/// secret. An error only when the system's random source fails.
pub fn encrypt(password: &str, secret: &[u8]) -> (r: Result<KeystoreCrypto, String>)
    requires
        password.spec_bytes().len() <= u32::MAX,
        secret@.len() <= u32::MAX,
    ensures
        r matches Ok(k) ==> exists|salt: Seq<u8>, nonce: Seq<u8>| salt.len() == 16 && nonce.len() == 12 && #[trigger] sealed_fields(salt, nonce,
            chacha20poly1305_seal(argon2id_key(password.spec_bytes(), salt, M_COST_KIB, T_COST, P_COST), nonce, secret@), k),
        r matches Ok(k) ==> keystore_outcome(password.spec_bytes(), k) == Some(Ok::<Seq<u8>, Seq<char>>(secret@)),
{
    let s = random_bytes(16)?;
    let n = random_bytes(12)?;
    let mut salt = [0u8; 16];
    let mut nonce = [0u8; 12];
    let mut i: usize = 0;
    while i < 16
        invariant
            i <= 16,
            s@.len() == 16,
        decreases 16 - i,
    {
        salt[i] = s[i];
        i = i + 1;
    }
    let mut j: usize = 0;
    while j < 12
        invariant
            j <= 12,
            n@.len() == 12,
        decreases 12 - j,
    {
        nonce[j] = n[j];
        j = j + 1;
    }
    let r = encrypt_with(password, secret, &salt, &nonce);
    proof {
        assert(salt@.len() == 16 && nonce@.len() == 12);
    }
    Ok(r)
}

} // verus!
