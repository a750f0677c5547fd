use hassan::chain::ChainState;
use hassan::{genesis_block, genesis_hash, Block};

const NOW: u64 = 1_785_024_000_100;

fn child_of_genesis() -> Block {
    let mut b = genesis_block();
    b.height = 1;
    b.timestamp = NOW;
    b.parents = vec![genesis_hash()];
    b
}

fn assert_unchanged(s: &ChainState) {
    assert_eq!(s.blocks.len(), 1);
    assert_eq!(s.store.nodes.len(), 1);
    assert_eq!(s.tips, vec![genesis_hash()]);
    assert_eq!(s.main_chain, vec![genesis_hash()]);
}

#[test]
fn add_block_refuses_a_block_it_already_holds() {
    let mut s = ChainState::new();
    assert_eq!(s.add_block(genesis_block(), NOW), Err("Block already known".to_string()));
    assert_unchanged(&s);
}

#[test]
fn add_block_refuses_a_block_without_parents() {
    let mut s = ChainState::new();
    let mut b = genesis_block();
    b.nonce = 1;
    assert_eq!(s.add_block(b, NOW), Err("Block has no parents".to_string()));
    assert_unchanged(&s);
}

#[test]
fn add_block_caps_the_parent_count() {
    let mut s = ChainState::new();
    let mut b = child_of_genesis();
    b.parents = (0..11u8).map(|i| hassan::hash::Hash([i; 64])).collect();
    assert_eq!(s.add_block(b, NOW), Err("Too many parents: 11 exceeds cap 10".to_string()));
    assert_unchanged(&s);
}

#[test]
fn add_block_refuses_repeated_and_unknown_parents() {
    let mut s = ChainState::new();
    let mut b = child_of_genesis();
    b.parents = vec![genesis_hash(), genesis_hash()];
    assert_eq!(s.add_block(b, NOW), Err("Duplicate parent in block".to_string()));
    let mut c = child_of_genesis();
    c.parents = vec![hassan::hash::Hash::zero()];
    assert_eq!(s.add_block(c, NOW), Err("Unknown parent block".to_string()));
    assert_unchanged(&s);
}

#[test]
fn add_block_requires_the_daa_difficulty() {
    let mut s = ChainState::new();
    let mut b = child_of_genesis();
    b.difficulty = 1;
    assert_eq!(
        s.add_block(b, NOW),
        Err("Wrong difficulty: block's past requires 7000, block claims 1".to_string())
    );
    assert_unchanged(&s);
}

#[test]
fn add_block_refuses_a_header_without_witnesses() {
    let mut s = ChainState::new();
    let mut b = child_of_genesis();
    b.difficulty = 7000;
    b.stark_proof = Vec::new();
    let mut nonce = 0u64;
    loop {
        b.nonce = nonce;
        if hassan::verify_pow(&b.hash(), b.difficulty) {
            break;
        }
        nonce += 1;
    }
    assert_eq!(
        s.add_block(b, NOW),
        Err("Header-only / empty-witness blocks are not consensus-admissible".to_string())
    );
    assert_unchanged(&s);
}

#[test]
fn header_gate_accepts_pow_without_witness() {
    let s = ChainState::new();
    let mut b = child_of_genesis();
    b.difficulty = s.expected_difficulty_at(&[genesis_hash()], NOW);
    assert_eq!(b.difficulty, 7000);
    b.stark_proof = Vec::new();
    let mut nonce = 0u64;
    loop {
        b.nonce = nonce;
        if hassan::verify_pow(&b.hash(), b.difficulty) {
            break;
        }
        nonce += 1;
    }
    assert_eq!(s.precheck_header(&b), Ok(()));
    let mut bad = b.clone();
    bad.parents = vec![genesis_hash(), genesis_hash()];
    assert_eq!(s.precheck_header(&bad), Err("Duplicate parent in block".to_string()));
    let mut far = b.clone();
    far.parents = vec![hassan::hash::Hash::zero()];
    assert_eq!(s.precheck_header(&far), Err("Unknown parent block".to_string()));
    assert_eq!(s.precheck_header(&genesis_block()), Err("Block already known".to_string()));
}

fn mined_child(s: &ChainState, parents: Vec<hassan::hash::Hash>, height: u64, timestamp: u64, sk: &[u8], pk: &[u8]) -> Block {
    let mut b = genesis_block();
    b.height = height;
    b.timestamp = timestamp;
    b.parents = parents;
    b.creator_pubkey = pk.to_vec();
    b.miner = hassan::address_hash(pk);
    b.stark_proof = vec![0u8; 64];
    b.difficulty = s.expected_difficulty_at(&b.parents, timestamp);
    b.merkle_root = b.merkle_root();
    let mut nonce = 0u64;
    loop {
        b.nonce = nonce;
        if hassan::verify_pow(&b.hash(), b.difficulty) {
            break;
        }
        nonce += 1;
    }
    b.issue_birth_certificate(sk).unwrap();
    b
}

#[test]
fn add_block_extends_the_selected_chain() {
    let mut s = ChainState::new();
    let (sk, pk) = hassan::generate_keypair().unwrap();
    let g = genesis_hash();
    let b1 = mined_child(&s, vec![g], 1, NOW, &sk, &pk);
    let h1 = b1.hash();
    assert_eq!(s.add_block(b1.clone(), NOW), Ok(()));
    assert_eq!(s.tips, vec![h1]);
    assert_eq!(s.main_chain, vec![g, h1]);
    assert_eq!(s.store.nodes.len(), 2);
    assert_eq!(s.selected_tip_blue_score(), 1);
    assert_eq!(s.add_block(b1, NOW), Err("Block already known".to_string()));
    let b2 = mined_child(&s, vec![h1], 2, NOW + 100, &sk, &pk);
    let h2 = b2.hash();
    assert_eq!(s.add_block(b2, NOW + 100), Ok(()));
    assert_eq!(s.main_chain, vec![g, h1, h2]);
    assert_eq!(s.selected_tip_blue_score(), 2);
}

#[test]
fn add_block_refuses_a_timestamp_at_the_past_median() {
    let mut s = ChainState::new();
    let (sk, pk) = hassan::generate_keypair().unwrap();
    let genesis_ts = genesis_block().timestamp;
    let b = mined_child(&s, vec![genesis_hash()], 1, genesis_ts, &sk, &pk);
    assert_eq!(
        s.add_block(b, NOW),
        Err(format!("Block timestamp {} not beyond past median time {}", genesis_ts, genesis_ts))
    );
    assert_unchanged(&s);
}

#[test]
fn soak_mining_through_add_block_keeps_a_growing_selected_chain() {
    let mut s = ChainState::new();
    let (sk, pk) = hassan::generate_keypair().unwrap();
    let mut tip = genesis_hash();
    let mut score = s.selected_tip_blue_score();
    let mut ts = NOW;
    for height in 1..=3u64 {
        let b = mined_child(&s, vec![tip], height, ts, &sk, &pk);
        tip = b.hash();
        assert_eq!(s.add_block(b, ts), Ok(()));
        let now_score = s.selected_tip_blue_score();
        assert!(now_score > score);
        score = now_score;
        assert_eq!(s.tips, vec![tip]);
        assert_eq!(*s.main_chain.last().unwrap(), tip);
        ts += 100;
    }
    let left = mined_child(&s, vec![tip], 4, ts, &sk, &pk);
    let right = mined_child(&s, vec![tip], 4, ts + 1, &sk, &pk);
    let (hl, hr) = (left.hash(), right.hash());
    assert_eq!(s.add_block(left, ts + 1), Ok(()));
    assert_eq!(s.add_block(right, ts + 1), Ok(()));
    assert_eq!(s.tips.len(), 2);
    assert!(s.selected_tip_blue_score() >= score);
    score = s.selected_tip_blue_score();
    ts += 100;
    let merge = mined_child(&s, vec![hl, hr], 5, ts, &sk, &pk);
    let hm = merge.hash();
    assert_eq!(s.add_block(merge, ts), Ok(()));
    assert_eq!(s.tips, vec![hm]);
    assert_eq!(*s.main_chain.last().unwrap(), hm);
    assert!(s.selected_tip_blue_score() >= score + 2);
    assert_eq!(s.store.nodes.len(), 7);
    assert_eq!(s.minted_supply, 0);
    let k = hassan::ghostdag::GHOSTDAG_K as usize;
    assert!(s.store.nodes.iter().all(|n| n.blues.len() <= k + 1));
    assert_eq!(s.store.nodes[6].blues.len(), 2);
}

#[test]
fn block_template_builds_on_the_best_tips_and_can_be_mined() {
    let mut s = ChainState::new();
    let t = s.block_template(NOW);
    assert_eq!(t.parents, vec![genesis_hash()]);
    assert_eq!(t.difficulty, 7000);
    assert_eq!(t.timestamp, NOW);
    assert_eq!(t.height, 1);
    assert!(t.transparent_txs.is_empty());
    assert_eq!(t.stark_proof, vec![0u8; 64]);
    let (sk, pk) = hassan::generate_keypair().unwrap();
    let mut b = t;
    b.creator_pubkey = pk.clone();
    b.miner = hassan::address_hash(&pk);
    let mut nonce = 0u64;
    loop {
        b.nonce = nonce;
        if hassan::verify_pow(&b.hash(), b.difficulty) {
            break;
        }
        nonce += 1;
    }
    b.issue_birth_certificate(&sk).unwrap();
    let h = b.hash();
    assert_eq!(s.add_block(b, NOW), Ok(()));
    assert_eq!(s.block_template(NOW + 100).parents, vec![h]);
}

#[test]
fn add_block_caps_the_total_wire_size() {
    let mut s = ChainState::new();
    let mut b = child_of_genesis();
    b.stark_proof = vec![0u8; 300_000];
    assert_eq!(s.add_block(b, NOW), Err("Block (with witness) exceeds total size limit".to_string()));
    assert_unchanged(&s);
}

#[test]
fn precheck_block_gates_size_header_and_witnesses() {
    let s = ChainState::new();
    let (sk, pk) = hassan::generate_keypair().unwrap();
    let b = mined_child(&s, vec![genesis_hash()], 1, NOW, &sk, &pk);
    assert_eq!(s.precheck_block(&b), Ok(()));
    let mut big = b.clone();
    big.stark_proof = vec![0u8; 300_000];
    assert_eq!(s.precheck_block(&big), Err("Block (with witness) exceeds total size limit".to_string()));
    let mut bare = b.clone();
    bare.stark_proof = vec![];
    assert_eq!(s.precheck_block(&bare), Err("Header-only / empty-witness blocks are not consensus-admissible".to_string()));
    let mut orphan = b.clone();
    orphan.parents = vec![hassan::hash::Hash::zero()];
    assert_eq!(s.precheck_block(&orphan), Err("Unknown parent block".to_string()));
    assert_eq!(s.precheck_block(&genesis_block()), Err("Block already known".to_string()));
}
