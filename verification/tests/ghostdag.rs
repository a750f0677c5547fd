use hassan::ghostdag::{
    compute_ghostdag_data, index_of, selected_chain, selected_tip, try_compute_ghostdag_data, DagNode, DagStore,
    GhostdagData, GHOSTDAG_K,
};
use hassan::{genesis_block, Block};
use std::collections::HashSet;

fn block_with_parents(parents: Vec<hassan::hash::Hash>, tag: u8) -> Block {
    let mut b = genesis_block();
    b.parents = parents;
    b.miner = hassan::hash::Hash([tag; 64]);
    b.nonce = tag as u64;
    b.difficulty = 1;
    b
}

struct TestDag {
    store: DagStore,
    tips: Vec<hassan::hash::Hash>,
}

impl TestDag {
    fn new() -> (Self, hassan::hash::Hash) {
        let g = block_with_parents(vec![], 0);
        let gh = g.hash();
        let mut store = DagStore::new();
        store.push_node(DagNode {
            hash: gh,
            parents: vec![],
            blue_score: 0,
            selected_parent: None,
            blues: vec![],
            reds: vec![],
        });
        (TestDag { store, tips: vec![gh] }, gh)
    }

    fn idx(&self, h: &hassan::hash::Hash) -> usize {
        index_of(&self.store, h).unwrap()
    }

    fn add(&mut self, parents: Vec<hassan::hash::Hash>, tag: u8) -> hassan::hash::Hash {
        let block = block_with_parents(parents.clone(), tag);
        let h = block.hash();
        let data = compute_ghostdag_data(&self.store, &parents);
        let node = DagNode {
            hash: h,
            parents: parents.iter().map(|p| self.idx(p)).collect(),
            blue_score: data.blue_score,
            selected_parent: data.selected_parent.map(|p| self.idx(&p)),
            blues: data.mergeset_blues.iter().map(|p| self.idx(p)).collect(),
            reds: data.mergeset_reds.iter().map(|p| self.idx(p)).collect(),
        };
        self.store.push_node(node);
        for p in &parents {
            self.tips.retain(|t| t != p);
        }
        self.tips.push(h);
        h
    }

    fn data(&self, h: &hassan::hash::Hash) -> GhostdagData {
        self.store.data_of(self.idx(h))
    }

    fn score(&self, h: &hassan::hash::Hash) -> u64 {
        self.data(h).blue_score
    }
}

#[test]
fn a_linear_chain_is_all_blue_with_strictly_increasing_score() {
    let (mut t, genesis) = TestDag::new();
    assert_eq!(t.score(&genesis), 0);
    let a = t.add(vec![genesis], 1);
    let b = t.add(vec![a], 2);
    let c = t.add(vec![b], 3);
    assert_eq!(t.score(&a), 1);
    assert_eq!(t.score(&b), 2);
    assert_eq!(t.score(&c), 3);
    for h in [a, b, c] {
        assert!(t.data(&h).mergeset_reds.is_empty());
    }
}

#[test]
fn selected_parent_is_the_highest_blue_score_tip() {
    let (mut t, genesis) = TestDag::new();
    let a1 = t.add(vec![genesis], 1);
    let a2 = t.add(vec![a1], 2);
    let a3 = t.add(vec![a2], 3);
    let b1 = t.add(vec![genesis], 10);
    let merge = t.add(vec![a3, b1], 20);
    assert_eq!(t.data(&merge).selected_parent, Some(a3));
    assert!(t.score(&merge) > t.score(&b1));
}

#[test]
fn a_merge_never_blues_more_than_k_plus_one_of_a_parallel_burst() {
    let (mut t, genesis) = TestDag::new();
    let mut siblings = Vec::new();
    for i in 0..(GHOSTDAG_K as u8 + 8) {
        siblings.push(t.add(vec![genesis], 100 + i));
    }
    let merge = t.add(siblings.clone(), 220);
    let data = t.data(&merge);
    assert!(
        data.mergeset_blues.len() as u64 <= GHOSTDAG_K + 1,
        "blued {} of a parallel burst, K+1 = {}",
        data.mergeset_blues.len(),
        GHOSTDAG_K + 1
    );
    assert!(!data.mergeset_reds.is_empty(), "a wide burst must produce some red blocks");
    let blues: HashSet<_> = data.mergeset_blues.iter().copied().collect();
    let reds: HashSet<_> = data.mergeset_reds.iter().copied().collect();
    for s in &siblings {
        assert!(blues.contains(s) ^ reds.contains(s), "each sibling is exactly one color");
    }
}

#[test]
fn selected_chain_runs_from_genesis_to_the_selected_tip() {
    let (mut t, genesis) = TestDag::new();
    let a = t.add(vec![genesis], 1);
    let b = t.add(vec![a], 2);
    let tip = selected_tip(&t.store, &t.tips).unwrap();
    assert_eq!(tip, b);
    let chain = selected_chain(&t.store, &tip);
    assert_eq!(chain, vec![genesis, a, b]);
}

#[test]
fn a_merge_whose_mergeset_exceeds_the_cap_is_rejected_before_coloring() {
    let (mut t, genesis) = TestDag::new();
    let mut siblings = Vec::new();
    for i in 0..8u8 {
        siblings.push(t.add(vec![genesis], 50 + i));
    }
    let err = try_compute_ghostdag_data(&t.store, &siblings, 3).unwrap_err();
    assert!(err.contains("Mergeset too large"), "got: {err}");
    assert!(try_compute_ghostdag_data(&t.store, &siblings, 100).is_ok());
}

#[test]
fn selected_tip_prefers_higher_blue_work_on_competing_branches() {
    let (mut t, genesis) = TestDag::new();
    let a1 = t.add(vec![genesis], 1);
    let a2 = t.add(vec![a1], 2);
    let a3 = t.add(vec![a2], 3);
    let b1 = t.add(vec![genesis], 10);
    let tip = selected_tip(&t.store, &t.tips).unwrap();
    assert_eq!(tip, a3, "longer blue branch must win tip selection");
    assert!(t.score(&a3) > t.score(&b1));
    let chain = selected_chain(&t.store, &tip);
    assert!(chain.contains(&genesis) && chain.contains(&a3));
    assert!(!chain.contains(&b1));
}

#[test]
fn blue_score_monotonic_along_selected_chain() {
    let (mut t, genesis) = TestDag::new();
    let mut prev = genesis;
    for i in 1..12u8 {
        prev = t.add(vec![prev], i);
    }
    let tip = selected_tip(&t.store, &t.tips).unwrap();
    let chain = selected_chain(&t.store, &tip);
    let mut last = 0u64;
    for h in &chain {
        let s = t.score(h);
        assert!(s >= last);
        last = s;
    }
}

#[test]
fn a_block_with_no_stored_parent_gets_genesis_data() {
    let (t, _) = TestDag::new();
    let d = compute_ghostdag_data(&t.store, &[hassan::hash::Hash([9u8; 64])]);
    assert_eq!(d.blue_score, 0);
    assert!(d.selected_parent.is_none());
    assert!(d.mergeset_blues.is_empty() && d.mergeset_reds.is_empty());
}

#[test]
fn a_two_parent_merge_blues_both_branches() {
    let (mut t, genesis) = TestDag::new();
    let a = t.add(vec![genesis], 1);
    let b = t.add(vec![genesis], 2);
    let m = t.add(vec![a, b], 3);
    let d = t.data(&m);
    assert_eq!(d.mergeset_blues.len(), 2);
    assert!(d.mergeset_reds.is_empty());
    assert_eq!(d.blue_score, 3);
}
