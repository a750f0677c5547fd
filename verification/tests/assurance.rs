use hassan::assurance::{mergeset_invariants, supply_components_sum};
use hassan::ghostdag::GhostdagData;
use hassan::{genesis_block, genesis_hash, verify_pruning_proof, PruningProof};
use hassan::genesis::{
    BLOCK_TIME_MS, DAA_WINDOW, DAA_WINDOW_CONSENSUS, FINALITY_DEPTH_CONSENSUS, PRUNING_PROOF_RECENT_WINDOW,
};
use hassan::ghostdag::GHOSTDAG_K;

#[test]
fn supply_components_identity() {
    assert_eq!(supply_components_sum(10, 20, 30, 40), 100);
}

#[test]
fn daa_window_constant_is_sane() {
    assert_eq!(DAA_WINDOW_CONSENSUS, 661);
    assert!(DAA_WINDOW >= 16);
    assert!(DAA_WINDOW <= 1024);
    assert_eq!(BLOCK_TIME_MS, 100);
    assert_eq!(FINALITY_DEPTH_CONSENSUS, 432_000);
    assert_eq!(PRUNING_PROOF_RECENT_WINDOW, DAA_WINDOW.saturating_mul(2));
}

#[test]
fn ghostdag_k_cluster_bound() {
    assert_eq!(GHOSTDAG_K, 40);
}

#[test]
fn tip_heaviest_on_fresh_chain() {
    let st = hassan::chain::ChainState::new();
    hassan::assurance::selected_tip_is_heaviest(&st.store, &st.tips).unwrap();
    soak_mine_blocks(8).unwrap();
}

/// Mines `n` blocks, each on all current tips, through `add_block`, checking
/// the supply invariant after each and the selected tip's blue score at the
/// end.
fn soak_mine_blocks(n: usize) -> Result<(), String> {
    let mut state = hassan::chain::ChainState::new();
    let mut ts = hassan::genesis::GENESIS_TIMESTAMP_MS + hassan::genesis::TARGET_BLOCK_TIME_MS;
    let (sk, pk) = hassan::generate_keypair()?;
    for i in 0..n {
        let mut block = genesis_block();
        block.parents = state.tips.clone();
        block.height = state.tip_height().saturating_add(1);
        block.timestamp = ts;
        block.difficulty = state.expected_difficulty_at(&block.parents, ts);
        block.coinbase_entropy = i as u64;
        block.creator_pubkey = pk.clone();
        block.miner = hassan::address_hash(&pk);
        block.stark_proof = vec![0u8; 64];
        block.merkle_root = block.merkle_root();
        let mut nonce = i as u64;
        loop {
            block.nonce = nonce;
            if hassan::verify_pow(&block.hash(), block.difficulty) {
                break;
            }
            nonce += 1;
        }
        block.issue_birth_certificate(&sk)?;
        state.add_block(block, ts)?;
        if !state.supply_invariant_ok() {
            return Err(format!("supply invariant broken at block {i}"));
        }
        ts = ts.saturating_add(hassan::genesis::TARGET_BLOCK_TIME_MS);
    }
    if state.selected_tip_blue_score() < n as u64 {
        return Err("blue score too low after soak".to_string());
    }
    Ok(())
}

#[test]
fn soak_32_blocks_keeps_supply() {
    soak_mine_blocks(32).expect("soak");
}

#[test]
fn mergeset_invariants_report_each_refusal() {
    let z = hassan::hash::Hash::zero();
    assert_eq!(mergeset_invariants(&GhostdagData::genesis()), Err("mergeset blues empty".to_string()));
    let ok = GhostdagData { blue_score: 1, selected_parent: Some(z), mergeset_blues: vec![z], mergeset_reds: vec![] };
    assert_eq!(mergeset_invariants(&ok), Ok(()));
    let dup = GhostdagData { blue_score: 1, selected_parent: Some(z), mergeset_blues: vec![z], mergeset_reds: vec![z] };
    assert_eq!(mergeset_invariants(&dup), Err("duplicate hash in mergeset".to_string()));
    let other = hassan::hash::Hash([1u8; 64]);
    let wrong_sp = GhostdagData { blue_score: 1, selected_parent: Some(other), mergeset_blues: vec![z], mergeset_reds: vec![] };
    assert_eq!(mergeset_invariants(&wrong_sp), Err("selected parent must be first mergeset blue".to_string()));
}

#[test]
fn pruning_proof_refusals_and_genesis_only_proof() {
    assert_eq!(verify_pruning_proof(&PruningProof { headers: vec![] }).unwrap_err(), "empty pruning proof");
    let mut bad = genesis_block();
    bad.nonce = 1;
    assert_eq!(
        verify_pruning_proof(&PruningProof { headers: vec![bad] }).unwrap_err(),
        "pruning proof does not start at genesis"
    );
    let s = verify_pruning_proof(&PruningProof { headers: vec![genesis_block()] }).unwrap();
    assert_eq!(s.pruning_point, genesis_hash());
    assert_eq!(s.cumulative_work, genesis_block().difficulty as u128);
    assert_eq!(s.header_count, 1);
}

#[test]
fn fresh_chain_starts_at_the_bootstrap_floor_with_genesis_stored() {
    let st = hassan::chain::ChainState::new();
    assert_eq!(st.difficulty, hassan::genesis::BOOTSTRAP_MIN_DIFFICULTY);
    assert_eq!(st.blocks[0].hash(), hassan::genesis_hash());
    assert_eq!(st.store.nodes[0].hash, hassan::genesis_hash());
}
