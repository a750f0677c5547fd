use hassan::chain::ChainState;
use hassan::ghostdag::DagNode;
use hassan::indexer::{BlockRecord, IndexerDb};
use hassan::{genesis_block, genesis_hash, Block, TransparentTx};

fn hex(b: &[u8]) -> String {
    hassan::bytes::hex_encode(b)
}

fn transfer(from: &str, to: &str, amount: u128, fee: u128) -> TransparentTx {
    TransparentTx {
        from: from.to_string(),
        from_pubkey: vec![],
        to: to.to_string(),
        amount,
        fee,
        nonce: 0,
        chain_id: 0,
        lock_blue_score: 0,
        relative_lock_blues: 0,
        hashlock: None,
        hashlock_preimage: vec![],
        signature: vec![],
    }
}

/// Genesis and one child holding two transfers, on the selected chain.
fn two_block_state() -> (ChainState, Block) {
    let mut s = ChainState::new();
    let mut b = genesis_block();
    b.height = 1;
    b.timestamp += 100;
    b.difficulty = 9000;
    b.parents = vec![genesis_hash()];
    b.transparent_txs = vec![transfer("hsn:alice", "hsn:bob", 5, 2), transfer("hsn:bob", "hsn:carol", 1, 3)];
    let h = b.hash();
    s.store.nodes.push(DagNode { hash: h, parents: vec![0], blue_score: 1, selected_parent: Some(0), blues: vec![0], reds: vec![] });
    s.blocks.push(b.clone());
    s.tips = vec![h];
    s.main_chain = vec![genesis_hash(), h];
    (s, b)
}

fn stale(height: u64, fill: u8) -> BlockRecord {
    BlockRecord {
        height,
        hash: hex(&[fill; 64]),
        blue_score: 0,
        timestamp: 0,
        difficulty: 0,
        miner: String::new(),
        transfers: 0,
        registry_ops: 0,
        custody_ops: 0,
        utxo_txs: 0,
        fees: "0".to_string(),
        selected_parent: None,
        is_chain_block: true,
    }
}

#[test]
fn sync_indexes_each_selected_block_with_its_fields() {
    let (s, b) = two_block_state();
    let mut db = IndexerDb::new();
    db.sync_from_state(&s);
    assert_eq!(db.blocks.len(), 2);
    let r = db.blocks.iter().find(|r| r.height == 1).unwrap();
    assert_eq!(r.hash, hex(&b.hash().0));
    assert_eq!(r.blue_score, 1);
    assert_eq!(r.timestamp, b.timestamp);
    assert_eq!(r.difficulty, 9000);
    assert_eq!(r.miner, format!("hsn:{}", hex(&b.miner.0)));
    assert_eq!(r.transfers, 2);
    assert_eq!(r.fees, "5");
    assert_eq!(r.selected_parent, Some(hex(&genesis_hash().0)));
    let g = db.blocks.iter().find(|r| r.height == 0).unwrap();
    assert_eq!(g.hash, hex(&genesis_hash().0));
    assert_eq!(g.selected_parent, None);
    assert_eq!(db.tip_height, 1);
    assert_eq!(db.tip_hash, Some(hex(&b.hash().0)));
}

#[test]
fn sync_records_transfers_and_address_activity() {
    let (s, b) = two_block_state();
    let mut db = IndexerDb::new();
    db.sync_from_state(&s);
    assert_eq!(db.txs.len(), 2);
    let id0 = hex(&b.transparent_txs[0].tx_hash().0);
    let t0 = db.txs.iter().find(|t| t.tx_hash == id0).unwrap();
    assert_eq!((t0.from.as_str(), t0.to.as_str(), t0.amount.as_str(), t0.fee.as_str()), ("hsn:alice", "hsn:bob", "5", "2"));
    assert_eq!(t0.height, 1);
    assert_eq!(t0.block_hash, hex(&b.hash().0));
    let id1 = hex(&b.transparent_txs[1].tx_hash().0);
    let list = |a: &str| db.address_txs.iter().find(|e| e.0 == a).map(|e| e.1.clone()).unwrap_or_default();
    assert_eq!(list("hsn:alice"), vec![id0.clone()]);
    assert_eq!(list("hsn:bob"), vec![id0, id1.clone()]);
    assert_eq!(list("hsn:carol"), vec![id1]);
}

#[test]
fn sync_replaces_what_a_reorg_left_behind() {
    let (s, b) = two_block_state();
    let mut db = IndexerDb::new();
    db.blocks.push(stale(1, 7));
    db.blocks.push(stale(5, 8));
    assert!(db.has_unique_heights());
    db.sync_from_state(&s);
    let heights: Vec<u64> = db.blocks.iter().map(|r| r.height).collect();
    assert_eq!(heights.len(), 2);
    assert!(heights.contains(&0) && heights.contains(&1));
    let r = db.blocks.iter().find(|r| r.height == 1).unwrap();
    assert_eq!(r.hash, hex(&b.hash().0));
}

#[test]
fn sync_keeps_a_record_that_already_names_the_block() {
    let (s, _) = two_block_state();
    let mut db = IndexerDb::new();
    let mut g = stale(0, 0);
    g.hash = hex(&genesis_hash().0);
    g.blue_score = 42;
    db.blocks.push(g);
    db.sync_from_state(&s);
    let r = db.blocks.iter().find(|r| r.height == 0).unwrap();
    assert_eq!(r.blue_score, 42);
    assert_eq!(db.blocks.len(), 2);
}

#[test]
fn repeated_heights_are_detected() {
    let mut db = IndexerDb::new();
    db.blocks.push(stale(3, 1));
    db.blocks.push(stale(3, 2));
    assert!(!db.has_unique_heights());
}

#[test]
fn issuer_label_names_the_key_address() {
    let pk = vec![3u8; 2592];
    let l = hassan::indexer::issuer_label(&pk);
    assert_eq!(l, format!("hsn:{}", hex(&hassan::address_hash(&pk).0)));
    assert!(l.starts_with("hsn:") && l.len() == 4 + 128);
}
