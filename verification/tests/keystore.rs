use hassan::keystore::{decrypt, encrypt_with, KeystoreCrypto, M_COST_KIB};

fn crypto(kdf: &str, cipher: &str, salt: &str, nonce: &str, ct: &str) -> KeystoreCrypto {
    KeystoreCrypto {
        kdf: Some(kdf.to_string()),
        argon2_version: Some(19),
        m_cost: Some(8),
        t_cost: Some(1),
        p_cost: Some(1),
        cipher: Some(cipher.to_string()),
        salt: salt.to_string(),
        nonce: nonce.to_string(),
        ciphertext: ct.to_string(),
    }
}

#[test]
fn keystore_refuses_unknown_kdf_and_cipher() {
    let c = crypto("scrypt", "chacha20poly1305", "00", "00", "00");
    assert_eq!(decrypt("pw", &c).unwrap_err(), "unsupported keystore KDF (expected argon2id)");
    let c = crypto("argon2id", "aes-gcm", "00", "00", "00");
    assert_eq!(decrypt("pw", &c).unwrap_err(), "unsupported keystore cipher");
    let mut c = crypto("argon2id", "chacha20poly1305", "00", "00", "00");
    c.kdf = None;
    assert!(decrypt("pw", &c).is_err());
}

#[test]
fn keystore_refuses_excessive_costs_and_bad_hex() {
    let mut c = crypto("argon2id", "chacha20poly1305", "00", "00", "00");
    c.m_cost = Some(2_000_000);
    assert_eq!(decrypt("pw", &c).unwrap_err(), "keystore argon2 m_cost too large (> 1 GiB)");
    let mut c = crypto("argon2id", "chacha20poly1305", "00", "00", "00");
    c.t_cost = Some(17);
    assert_eq!(decrypt("pw", &c).unwrap_err(), "keystore argon2 t_cost/p_cost too large (> 16)");
    let c = crypto("argon2id", "chacha20poly1305", "zz", "00", "00");
    assert_eq!(decrypt("pw", &c).unwrap_err(), "bad salt");
    let c = crypto("argon2id", "chacha20poly1305", "0011", "0", "00");
    assert_eq!(decrypt("pw", &c).unwrap_err(), "bad nonce");
    let c = crypto("argon2id", "chacha20poly1305", "0011", "00", "00");
    assert_eq!(decrypt("pw", &c).unwrap_err(), "bad nonce length");
    let c = crypto("argon2id", "chacha20poly1305", "0011", &"00".repeat(12), "x");
    assert_eq!(decrypt("pw", &c).unwrap_err(), "bad ciphertext");
}

#[test]
fn keystore_with_a_short_salt_is_refused_by_the_kdf() {
    let c = crypto("argon2id", "chacha20poly1305", "0011", &"00".repeat(12), &"00".repeat(20));
    assert!(decrypt("pw", &c).is_err());
}

#[test]
fn keystore_seals_and_opens_with_the_same_password_only() {
    let secret = b"an ML-DSA secret key".to_vec();
    let salt = [7u8; 16];
    let nonce = [9u8; 12];
    let c = encrypt_with("correct horse", &secret, &salt, &nonce);
    assert_eq!(c.kdf.as_deref(), Some("argon2id"));
    assert_eq!(c.m_cost, Some(M_COST_KIB as u64));
    assert_eq!(c.salt, "07".repeat(16));
    assert_eq!(c.nonce, "09".repeat(12));
    assert_eq!(c.ciphertext.len(), 2 * (secret.len() + 16));
    assert_eq!(decrypt("correct horse", &c).unwrap(), secret);
}
