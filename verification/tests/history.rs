use hassan::chain::ChainState;
use hassan::ghostdag::DagNode;
use hassan::{genesis_block, genesis_hash, Block};

fn block_on(parent: hassan::hash::Hash, height: u64) -> Block {
    let mut b = genesis_block();
    b.height = height;
    b.timestamp += height * 100;
    b.parents = vec![parent];
    b
}

fn node(hash: hassan::hash::Hash, parent: usize, blue_score: u64) -> DagNode {
    DagNode { hash, parents: vec![parent], blue_score, selected_parent: Some(parent), blues: vec![parent], reds: vec![] }
}

/// Genesis, a block at blue score 10 and a tip far beyond the pruning depth.
fn deep_chain() -> (ChainState, hassan::hash::Hash, hassan::hash::Hash) {
    let mut s = ChainState::new();
    let b1 = block_on(genesis_hash(), 1);
    let h1 = b1.hash();
    let b2 = block_on(h1, 2);
    let h2 = b2.hash();
    s.store.nodes.push(node(h1, 0, 10));
    s.store.nodes.push(node(h2, 1, 900_000));
    s.blocks.push(b1);
    s.blocks.push(b2);
    s.tips = vec![h2];
    (s, h1, h2)
}

#[test]
fn prune_history_leaves_a_fresh_chain_alone() {
    let mut s = ChainState::new();
    s.prune_history();
    assert_eq!(s.store.nodes.len(), 1);
    assert_eq!(s.tips, vec![genesis_hash()]);
    assert_eq!(s.pruning_point, None);
    assert_eq!(s.pruned_selected_blocks, 0);
}

#[test]
fn prune_history_drops_blocks_below_the_pruning_point() {
    let (mut s, h1, h2) = deep_chain();
    s.prune_history();
    assert_eq!(s.store.nodes.len(), 2);
    assert_eq!(s.blocks.len(), 2);
    assert_eq!(s.store.nodes[0].hash, h1);
    assert_eq!(s.store.nodes[0].parents, Vec::<usize>::new());
    assert_eq!(s.store.nodes[0].selected_parent, None);
    assert_eq!(s.store.nodes[1].hash, h2);
    assert_eq!(s.store.nodes[1].parents, vec![0]);
    assert_eq!(s.store.nodes[1].selected_parent, Some(0));
    assert_eq!(s.blocks[0].hash(), h1);
    assert_eq!(s.tips, vec![h2]);
    assert_eq!(s.main_chain, vec![h1, h2]);
    assert_eq!(s.pruning_point, Some(h1));
    assert_eq!(s.pruned_selected_blocks, 1);
    assert_eq!(s.selected_tip_blue_score(), 900_000);
}

#[test]
fn prune_history_keeps_everything_on_an_archival_node() {
    let (mut s, _, _) = deep_chain();
    s.archival = true;
    s.prune_history();
    assert_eq!(s.store.nodes.len(), 3);
    assert_eq!(s.pruning_point, None);
}
