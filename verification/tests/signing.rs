use hassan::abs_sig::{AbsSignature, ABS_SCHEME_ML_DSA_87};
use hassan::address::{
    address_fingerprint, addresses_equivalent, decode_address, encode_address, encode_hash, encode_legacy_hex,
    is_bech32m_address, is_valid_hassan_address, ADDRESS_PAYLOAD_LEN,
};
use hassan::block::genesis_block;
use hassan::custody::{issue_custody, verify_round_trip, CustodyKind, CustodyRequest};
use hassan::genesis::CHAIN_ID;
use hassan::hd::master_from_passphrase;
use hassan::kernel::kernel_rules_id;
use hassan::{address_hash, address_matches_pubkey, generate_keypair, genesis_hash, Block};

#[test]
fn abs_signature_round_trips_as_number_and_verifies() {
    let (sk, pk) = generate_keypair().unwrap();
    let msg = b"transfer:100:to:alice";
    let abs = AbsSignature::sign(b"wallet-transfer", msg, &sk, &pk).unwrap();
    assert_eq!(abs.scheme, ABS_SCHEME_ML_DSA_87);
    assert!(!abs.value.is_empty());
    assert!(abs.value.chars().all(|c| c.is_ascii_digit()));
    assert!(abs.verify(b"wallet-transfer", msg));
    assert!(!abs.verify(b"wallet-transfer", b"tampered"));
}

#[test]
fn roundtrip_bech32m() {
    let (_, pk) = generate_keypair().unwrap();
    let a = encode_address(&pk);
    assert!(a.starts_with("hsn1"));
    assert!(is_bech32m_address(&a));
    let payload = decode_address(&a).unwrap();
    assert_eq!(&payload, &address_hash(&pk).as_bytes()[..ADDRESS_PAYLOAD_LEN]);
}

#[test]
fn same_pk_same_address() {
    let (_, pk) = generate_keypair().unwrap();
    assert_eq!(encode_address(&pk), encode_address(&pk));
}

#[test]
fn rejects_invalid_checksum() {
    let (_, pk) = generate_keypair().unwrap();
    let a = encode_address(&pk);
    let mut chars: Vec<char> = a.chars().collect();
    let i = chars.len() / 2;
    chars[i] = if chars[i] == 'q' { 'p' } else { 'q' };
    let tampered: String = chars.into_iter().collect();
    assert!(!is_bech32m_address(&tampered));
    assert!(address_fingerprint(&tampered).is_none());
}

#[test]
fn rejects_mixed_case() {
    let (_, pk) = generate_keypair().unwrap();
    let a = encode_address(&pk);
    let mixed = format!("{}{}", &a[..4].to_uppercase(), &a[4..]);
    assert!(!is_bech32m_address(&mixed));
}

#[test]
fn legacy_and_bech32m_are_equivalent() {
    let (_, pk) = generate_keypair().unwrap();
    let h = address_hash(&pk);
    let bech = encode_hash(&h);
    let legacy = encode_legacy_hex(&h);
    assert!(addresses_equivalent(&bech, &legacy));
    assert!(address_matches_pubkey(&bech, &pk));
    assert!(address_matches_pubkey(&legacy, &pk));
    assert!(is_valid_hassan_address(&bech));
    assert!(is_valid_hassan_address(&legacy));
}

#[test]
fn new_encode_is_bech32m_only() {
    let (_, pk) = generate_keypair().unwrap();
    let a = encode_address(&pk);
    assert!(a.starts_with("hsn1"), "new outputs use bech32m");
    assert!(!a.starts_with("hsn:"));
    assert!(is_bech32m_address(&a));
}

#[test]
fn legacy_fingerprint_is_the_first_half_of_the_digest() {
    let (_, pk) = generate_keypair().unwrap();
    let h = address_hash(&pk);
    let legacy = encode_legacy_hex(&h);
    assert_eq!(legacy.len(), 4 + 128);
    let fp = address_fingerprint(&legacy).unwrap();
    assert_eq!(&fp[..], &h.as_bytes()[..32]);
    assert!(!is_valid_hassan_address("hsn:zz"));
    assert!(!is_valid_hassan_address(""));
}

#[test]
fn passphrase_master_stable() {
    let m1 = master_from_passphrase("test", b"salt");
    let m2 = master_from_passphrase("test", b"salt");
    assert_eq!(m1, m2);
    assert_ne!(m1, master_from_passphrase("test", b"other"));
}

#[test]
fn kernel_rules_id_is_stable() {
    assert_eq!(kernel_rules_id(), kernel_rules_id());
    assert_ne!(kernel_rules_id(), hassan::hash::Hash::zero());
}

/// A child of genesis carrying `pk` as its issuer and a birth certificate
/// signed with `sk` (no proof-of-work search).
fn sealed_child(tag: u64, sk: &[u8], pk: &[u8]) -> Block {
    let mut block = genesis_block();
    block.parents = vec![genesis_hash()];
    block.timestamp = block.timestamp + 100 + tag;
    block.nonce = tag;
    block.creator_pubkey = pk.to_vec();
    block.miner = address_hash(pk);
    block.issue_birth_certificate(sk).expect("certificate");
    block
}

#[test]
fn tampered_birth_certificate_is_rejected() {
    let (sk, pk) = generate_keypair().unwrap();
    let mut block = sealed_child(1, &sk, &pk);
    assert!(block.verify_issuance().is_ok());
    block.birth_certificate.signature[0] ^= 0xff;
    assert!(matches!(
        block.verify_issuance(),
        Err(e) if e.contains("birth certificate")
    ));
}

#[test]
fn stake_lock_and_unlock_verify_with_birth_certificate() {
    let (msk, mpk) = generate_keypair().unwrap();
    let block_lock = sealed_child(1, &msk, &mpk);
    let (sk, pk) = generate_keypair().unwrap();
    let lock = issue_custody(CustodyRequest {
        kind: CustodyKind::StakeLock,
        block: &block_lock,
        foreign_chain_id: 0,
        amount: 1_000,
        title_id: None,
        owner_sk: &sk,
        owner_pk: &pk,
        nonce: 0,
        chain_id: CHAIN_ID,
        dual_sig_keypair: None,
    })
    .unwrap();
    assert!(lock.verify(block_lock.settlement_id().as_bytes()).is_ok());

    let block_unlock = sealed_child(2, &msk, &mpk);
    let unlock = issue_custody(CustodyRequest {
        kind: CustodyKind::StakeUnlock,
        block: &block_unlock,
        foreign_chain_id: 0,
        amount: 1_000,
        title_id: None,
        owner_sk: &sk,
        owner_pk: &pk,
        nonce: 1,
        chain_id: CHAIN_ID,
        dual_sig_keypair: None,
    })
    .unwrap();
    verify_round_trip(&lock, &unlock).unwrap();
}

#[test]
fn bridge_exit_and_enter_require_matching_foreign_chain() {
    let (msk, mpk) = generate_keypair().unwrap();
    let exit_block = sealed_child(1, &msk, &mpk);
    let enter_block = sealed_child(2, &msk, &mpk);
    let (sk, pk) = generate_keypair().unwrap();
    let exit = issue_custody(CustodyRequest {
        kind: CustodyKind::BridgeExit,
        block: &exit_block,
        foreign_chain_id: 99,
        amount: 1000,
        title_id: None,
        owner_sk: &sk,
        owner_pk: &pk,
        nonce: 0,
        chain_id: CHAIN_ID,
        dual_sig_keypair: None,
    })
    .unwrap();
    let enter = issue_custody(CustodyRequest {
        kind: CustodyKind::BridgeEnter,
        block: &enter_block,
        foreign_chain_id: 99,
        amount: 1000,
        title_id: None,
        owner_sk: &sk,
        owner_pk: &pk,
        nonce: 1,
        chain_id: CHAIN_ID,
        dual_sig_keypair: None,
    })
    .unwrap();
    verify_round_trip(&exit, &enter).unwrap();
}

#[test]
fn custody_on_an_unsealed_block_is_refused() {
    let (msk, mpk) = generate_keypair().unwrap();
    let mut block = sealed_child(1, &msk, &mpk);
    block.birth_certificate.signature[0] ^= 0xff;
    let (sk, pk) = generate_keypair().unwrap();
    let r = issue_custody(CustodyRequest {
        kind: CustodyKind::StakeLock,
        block: &block,
        foreign_chain_id: 0,
        amount: 1000,
        title_id: None,
        owner_sk: &sk,
        owner_pk: &pk,
        nonce: 0,
        chain_id: CHAIN_ID,
        dual_sig_keypair: None,
    });
    assert!(r.is_err());
}

#[test]
fn every_single_character_substitution_is_rejected() {
    let charset = b"qpzry9x8gf2tvdw0s3jn54khce6mua7l";
    let a = hassan::address::encode_hash(&genesis_hash());
    assert!(hassan::address::is_bech32m_address(&a));
    let bytes = a.as_bytes().to_vec();
    for j in 4..bytes.len() {
        for &c in charset.iter() {
            if c == bytes[j] {
                continue;
            }
            let mut b = bytes.clone();
            b[j] = c;
            let s = String::from_utf8(b).unwrap();
            assert!(!hassan::address::is_bech32m_address(&s), "substitution at {j} accepted");
        }
    }
}

#[test]
fn legacy_strings_and_mixed_case_are_not_bech32m() {
    let legacy = format!("hsn:{}", "1".repeat(128));
    assert!(!hassan::address::is_bech32m_address(&legacy));
    let a = hassan::address::encode_hash(&genesis_hash());
    let mixed = format!("HSN1{}", &a[4..]);
    assert!(!hassan::address::is_bech32m_address(&mixed));
}
