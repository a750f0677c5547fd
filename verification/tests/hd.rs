use hassan::hd::derive_keypair;

#[test]
fn derivation_is_deterministic_and_index_sensitive() {
    let master = [7u8; 32];
    let (sk1, pk1, a1) = derive_keypair(&master, 0, 0).unwrap();
    let (sk2, pk2, a2) = derive_keypair(&master, 0, 0).unwrap();
    assert_eq!(sk1, sk2);
    assert_eq!(pk1, pk2);
    assert_eq!(a1, a2);
    let (_, _, a3) = derive_keypair(&master, 0, 1).unwrap();
    assert_ne!(a1, a3);
    let (_, _, a4) = derive_keypair(&master, 1, 0).unwrap();
    assert_ne!(a1, a4);
}

#[test]
fn short_master_seed_is_refused_with_its_reason() {
    assert_eq!(derive_keypair(&[1u8; 15], 0, 0).unwrap_err(), "master seed too short (need ≥16 bytes)");
    let (sk, pk, _) = derive_keypair(&[7u8; 32], 0, 0).unwrap();
    assert_eq!(sk.len(), hassan::PQ_SECRET_KEY_SIZE);
    assert_eq!(pk.len(), hassan::PQ_PUBLIC_KEY_SIZE);
}
