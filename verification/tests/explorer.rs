use hassan::api::{default_fee, submit_tx, TxSubmitRequest};
use hassan::chain::{Account, ChainState};
use hassan::economics::{record_first_seen_at, EconomicEntity, TransactionEconomicEntity};
use hassan::genesis::{effective_min_difficulty, ACCOUNT_PEER_TRANSFERS, CHAIN_ID, MIN_TX_FEE};
use hassan::hash::digest512;
use hassan::indexer::{frame_index, unframe_index, IndexerDb, SearchHit};
use hassan::{chain_hash, chain_hash_hex, generate_keypair, genesis_hash, hash_to_address, test_address, TransparentTx, HASH_SIZE};

fn funded_state(address: &str, balance: u128) -> ChainState {
    let mut state = ChainState::new();
    state.accounts.push((
        address.to_string(),
        Account { balance, nonce: 0, last_spend_blue: 0, code_hash: None, storage_root: hassan::hash::Hash::zero() },
    ));
    state
}

#[test]
fn chain_starts_at_genesis_height_zero() {
    let state = ChainState::new();
    assert_eq!(state.tip_height(), 0);
    assert_eq!(state.main_chain.len(), 1);
    assert_eq!(state.store.nodes.len(), 1);
    let genesis = &state.blocks[0];
    assert_eq!(state.store.nodes[0].hash, state.main_chain[0]);
    assert_eq!(genesis.height, 0);
    assert!(genesis.parents.is_empty());
    assert_eq!(genesis.hash(), genesis_hash());
    assert_eq!(state.minted_supply, 0);
    assert_eq!(state.difficulty, effective_min_difficulty());
}

#[test]
fn chain_hash_is_stable_blake3_of_domain_id_and_genesis() {
    let h = chain_hash();
    let mut buf = Vec::new();
    buf.extend_from_slice(b"hassan-genesis-v31");
    buf.extend_from_slice(&CHAIN_ID.to_le_bytes());
    buf.extend_from_slice(genesis_hash().as_bytes());
    assert_eq!(h, hassan::hash::Hash(digest512(b"chain-hash", &buf)));
    assert_eq!(chain_hash_hex().len(), HASH_SIZE * 2);
    assert_eq!(chain_hash(), chain_hash());
}

#[test]
fn v27_account_peer_transfers_are_disabled() {
    assert!(!ACCOUNT_PEER_TRANSFERS);
    let mut state = ChainState::new();
    let (sk, pk) = generate_keypair().unwrap();
    let mut tx = TransparentTx::new(pk, test_address(1), 1000, 0, state.chain_id);
    tx.sign(&sk).unwrap();
    let err = state.apply_transparent_tx(&tx).unwrap_err();
    assert!(err.contains("disabled"), "{err}");
    let err2 = state.admit_transparent_to_mempool(tx).unwrap_err();
    assert!(err2.contains("disabled"), "{err2}");
}

#[test]
fn tampered_amount_after_signing_is_rejected() {
    let (sk, pk) = generate_keypair().unwrap();
    let from = hash_to_address(&pk);
    let mut state = funded_state(&from, 1_000_000);
    let mut tx = TransparentTx::new(pk, test_address(1), 1000, 0, state.chain_id);
    tx.sign(&sk).unwrap();
    tx.amount = 100_000;
    assert!(state.apply_transparent_tx(&tx).is_err());
}

#[test]
fn forged_signature_from_random_bytes_is_rejected() {
    let (_sk, pk) = generate_keypair().unwrap();
    let from = hash_to_address(&pk);
    let mut state = funded_state(&from, 1_000_000);
    let mut tx = TransparentTx::new(pk, test_address(1), 1000, 0, state.chain_id);
    tx.signature = vec![0u8; 64];
    assert!(state.apply_transparent_tx(&tx).is_err());
}

#[test]
fn signing_with_a_different_key_than_from_pubkey_is_rejected() {
    let (sk_attacker, _pk_attacker) = generate_keypair().unwrap();
    let (_sk_victim, pk_victim) = generate_keypair().unwrap();
    let victim_addr = hash_to_address(&pk_victim);
    let mut state = funded_state(&victim_addr, 1_000_000);
    let mut tx = TransparentTx::new(pk_victim, test_address(2), 1000, 0, state.chain_id);
    tx.sign(&sk_attacker).unwrap();
    assert!(state.apply_transparent_tx(&tx).is_err());
}

#[test]
fn wrong_nonce_is_rejected() {
    let (sk, pk) = generate_keypair().unwrap();
    let from = hash_to_address(&pk);
    let mut state = funded_state(&from, 1_000_000);
    let mut tx = TransparentTx::new(pk, test_address(1), 1000, 5, state.chain_id);
    tx.sign(&sk).unwrap();
    assert!(state.apply_transparent_tx(&tx).is_err());
}

#[test]
fn insufficient_balance_is_rejected() {
    let (sk, pk) = generate_keypair().unwrap();
    let from = hash_to_address(&pk);
    let mut state = funded_state(&from, 50);
    let mut tx = TransparentTx::new(pk, test_address(1), 1000, 0, state.chain_id);
    tx.sign(&sk).unwrap();
    assert!(state.apply_transparent_tx(&tx).is_err());
}

#[test]
fn submit_tx_reports_transfers_disabled_and_leaves_state() {
    let mut state = ChainState::new();
    let req = TxSubmitRequest {
        from_pubkey: String::from("00"),
        to: test_address(1),
        amount: 10,
        fee: default_fee(),
        nonce: 0,
        chain_id: CHAIN_ID,
        signature: String::new(),
    };
    assert_eq!(default_fee(), MIN_TX_FEE);
    let err = submit_tx(&mut state, req).unwrap_err();
    assert!(err.contains("disabled"));
    assert_eq!(state.tip_height(), 0);
    assert!(state.transparent_mempool.is_empty());
}

#[test]
fn genesis_has_a_provenance_record_and_no_issuer() {
    let state = ChainState::new();
    let genesis_hash = state.tips[0];
    let entity = EconomicEntity::for_block(&state, &genesis_hash).expect("genesis is a real block");
    assert_eq!(entity.provenance.instrument_type, "Genesis Instrument");
    assert!(entity.provenance.issuing_authority.is_none(), "genesis has no miner issuer");
    assert_eq!(entity.lineage.ancestors.len(), 0, "genesis has no ancestors");
    assert!(entity.finality.is_on_selected_chain);
}

#[test]
fn unknown_transfer_hash_resolves_to_nothing() {
    let state = ChainState::new();
    let bogus = hassan::hash::Hash([0xab; HASH_SIZE]);
    assert!(TransactionEconomicEntity::for_tx(&state, &bogus).is_none());
}

#[test]
fn unknown_block_has_no_economic_entity() {
    let state = ChainState::new();
    assert!(EconomicEntity::for_block(&state, &hassan::hash::Hash([0xcd; HASH_SIZE])).is_none());
}

#[test]
fn audit_trail_is_hash_chained_and_deterministic() {
    let state = ChainState::new();
    let genesis_hash = state.tips[0];
    let a = EconomicEntity::for_block(&state, &genesis_hash).unwrap().audit_trail;
    let b = EconomicEntity::for_block(&state, &genesis_hash).unwrap().audit_trail;
    assert_eq!(a.trail_hash, b.trail_hash, "same block must always produce the same trail (audit independence)");
    assert!(a.entries.len() >= 4, "genesis should have at least received/pow-exempt/certificate/coloring entries");
    assert_eq!(a.entries[0].prev_entry_hash, hex::encode(hassan::hash::Hash::zero().0), "first entry chains from zero");
    for pair in a.entries.windows(2) {
        assert_eq!(pair[1].prev_entry_hash, pair[0].entry_hash, "each entry must chain to the previous entry's hash");
    }
    assert_eq!(a.trail_hash, a.entries.last().unwrap().entry_hash);
    assert!(a.entries.iter().any(|e| e.event == "proof_of_work_exempt"));
}

#[test]
fn first_seen_is_recorded_once() {
    let mut state = ChainState::new();
    let h = hassan::hash::Hash([1u8; HASH_SIZE]);
    record_first_seen_at(&mut state, h, 1000);
    record_first_seen_at(&mut state, h, 2000);
    assert_eq!(state.tx_first_seen_ms.len(), 1);
    assert_eq!(state.tx_first_seen_ms[0], (h, 1000));
}

#[test]
fn sync_from_genesis_state_indexes_height_zero() {
    let state = ChainState::new();
    let mut db = IndexerDb::new();
    db.sync_from_state(&state);
    assert!(db.blocks.iter().any(|b| b.height == 0) || db.tip_height == 0);
    assert!(!db.series.is_empty() || state.main_chain.is_empty() == false);
    let q = db.search("0");
    assert!(q.results.iter().any(|r| matches!(r, SearchHit::Block { .. })) || db.blocks.is_empty());
}

#[test]
fn search_op_label_finds_protocol_seed() {
    let db = IndexerDb::new();
    let r = db.search("op:genesis");
    assert!(!r.results.is_empty());
}

#[test]
fn search_of_blank_query_is_empty() {
    let db = IndexerDb::new();
    let r = db.search("   ");
    assert_eq!(r.query, "");
    assert!(r.results.is_empty());
}

#[test]
fn index_frame_roundtrip_and_bitflip_rejected() {
    let payload = b"indexer payload bytes".to_vec();
    let framed = frame_index(&payload);
    assert_eq!(unframe_index(&framed).unwrap(), payload);
    let mut bad = framed.clone();
    let flip = bad.len() / 2;
    bad[flip] ^= 0xff;
    assert!(unframe_index(&bad).is_err());
    assert!(unframe_index(&framed[..framed.len() - 1]).is_err());
}

#[test]
fn search_reports_an_outpoint_and_a_whole_block_hash() {
    let state = ChainState::new();
    let mut db = IndexerDb::new();
    db.sync_from_state(&state);
    let q = format!("{}:7", "ab".repeat(64));
    let r = db.search(&q);
    assert!(r.results.iter().any(|h| matches!(h, SearchHit::Outpoint { id, vout, .. } if *id == q && vout == "7")));
    let g = hassan::bytes::hex_encode(genesis_hash().as_slice());
    let upper = format!("0x{}", g.to_uppercase());
    let r = db.search(&upper);
    assert!(r.results.iter().any(|h| matches!(h, SearchHit::Block { id, height: 0, .. } if *id == g)));
}

#[test]
fn label_search_reports_only_matching_entries() {
    let db = IndexerDb::new();
    let r = db.search("label:GENESIS");
    assert!(!r.results.is_empty());
    for h in &r.results {
        match h {
            SearchHit::Label { id, label } => {
                assert!(label.to_lowercase().contains("genesis") || id.to_lowercase().contains("genesis"));
            }
            other => panic!("unexpected hit {:?}", other),
        }
    }
}
