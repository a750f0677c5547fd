//! Time, finality and body pruning along the selected chain.
use vstd::prelude::*;
use crate::block::{body_empty, body_stripped, genesis_hash, spec_block_hash, spec_genesis_identity, spec_identity, Block};
use crate::crypto::blake3_xof;
use crate::pruning::PruningProof;
use crate::chain::{fee_leq, sort_fees, spec_tip_score, ChainState};
use crate::genesis::FINALITY_DEPTH;
use crate::ghostdag::{index_of, is_best_of, is_selected_chain, lemma_best_unique, present_parent_indices, select_parent_idx, selected_chain_idx, DagStore};

verus! {

/// Timestamps of up to `k` blocks along the selected-parent chain from `i`.
pub open spec fn mtp_times(s: DagStore, blocks: Seq<Block>, i: int, k: nat) -> Seq<u64>
    decreases k,
{
    if k == 0 || i < 0 || i >= s.len() {
        Seq::empty()
    } else {
        seq![blocks[i].timestamp] + match s.nodes@[i].selected_parent {
            Some(j) => if j < i { mtp_times(s, blocks, j as int, (k - 1) as nat) } else { Seq::empty() },
            None => Seq::empty(),
        }
    }
}

/// Median (upper middle) of the timestamps.
pub open spec fn median_time(t: Seq<u64>) -> u64 {
    let v = t.map_values(|x: u64| x as u128).sort_by(fee_leq());
    v[(v.len() / 2) as int] as u64
}

/// Past median time at `tip`: the median of up to 11 selected-chain
/// timestamps ending at `tip`; 0 for a block that is not stored.
pub open spec fn spec_past_median_time(s: DagStore, blocks: Seq<Block>, tip: Seq<u8>) -> u64 {
    if s.has(tip) {
        median_time(mtp_times(s, blocks, s.idx_of(tip), 11))
    } else {
        0
    }
}

/// Position in `c` from `i` on of the first block scoring above `thr`
/// (`c.len()` when none does).
pub open spec fn first_above(s: DagStore, c: Seq<usize>, thr: int, i: int) -> int
    decreases c.len() - i,
{
    if i >= c.len() {
        c.len() as int
    } else if s.score(c[i] as int) > thr {
        i
    } else {
        first_above(s, c, thr, i + 1)
    }
}

/// The last block of the leading run of `c` scoring at most `thr`.
pub open spec fn last_within(s: DagStore, c: Seq<usize>, thr: int) -> Option<Seq<u8>> {
    let m = first_above(s, c, thr, 0);
    if m <= 0 {
        None
    } else {
        Some(s.hash_of(c[m - 1] as int))
    }
}

impl ChainState {
    /// Past median time at `tip`: median of up to 11 selected-parent
    /// timestamps ending at `tip` (inclusive); 0 for an unknown block.
    pub fn past_median_time(&self, tip: &crate::hash::Hash) -> (r: u64)
        requires
            self.wf(),
        ensures
            r == spec_past_median_time(self.store, self.blocks@, tip@),
    {
        let ghost s = self.store;
        let ghost blocks = self.blocks@;
        let start = match index_of(&self.store, tip) {
            Some(i) => i,
            None => {
                return 0;
            },
        };
        proof {
            s.lemma_idx_of_unique(tip@, start as int);
        }
        let ghost full = mtp_times(s, blocks, start as int, 11);
        let mut times: Vec<u128> = Vec::new();
        let mut cur: usize = start;
        let mut left: usize = 11;
        loop
            invariant_except_break
                self.wf(),
                s == self.store,
                blocks == self.blocks@,
                cur < s.len(),
                1 <= left <= 11,
                times@.len() + left == 11,
                full.map_values(|x: u64| x as u128) == times@ + mtp_times(s, blocks, cur as int, left as nat).map_values(|x: u64| x as u128),
            ensures
                full.map_values(|x: u64| x as u128) == times@,
                times@.len() >= 1,
            decreases left,
        {
            let ghost rest = mtp_times(s, blocks, cur as int, left as nat);
            let ghost tail = match s.nodes@[cur as int].selected_parent {
                Some(j) => if j < cur { mtp_times(s, blocks, j as int, (left - 1) as nat) } else { Seq::empty() },
                None => Seq::empty(),
            };
            proof {
                assert(rest == seq![blocks[cur as int].timestamp] + tail);
                assert(rest.map_values(|x: u64| x as u128) =~= seq![blocks[cur as int].timestamp as u128] + tail.map_values(|x: u64| x as u128));
            }
            times.push(self.blocks[cur].timestamp as u128);
            proof {
                assert(full.map_values(|x: u64| x as u128) =~= times@ + tail.map_values(|x: u64| x as u128));
            }
            if left == 1 {
                proof {
                    assert(tail.map_values(|x: u64| x as u128) =~= Seq::<u128>::empty());
                }
                break;
            }
            match self.store.nodes[cur].selected_parent {
                Some(j) => {
                    assert(j < cur);
                    cur = j;
                    left = left - 1;
                },
                None => {
                    proof {
                        assert(tail.map_values(|x: u64| x as u128) =~= Seq::<u128>::empty());
                    }
                    break;
                },
            }
        }
        let sorted = sort_fees(&times);
        proof {
            times@.lemma_sort_by_ensures(fee_leq());
            vstd::seq_lib::to_multiset_len(times@);
            vstd::seq_lib::to_multiset_len(sorted@);
            assert(sorted@.len() == times@.len());
        }
        let m = sorted[sorted.len() / 2];
        proof {
            assert(sorted@.contains(m));
            if !times@.contains(m) {
                assert(!sorted@.contains(m));
            }
            let q = choose|q: int| 0 <= q < times@.len() && times@[q] == m;
            assert(times@[q] == full[q] as u128);
        }
        m as u64
    }

    /// The finality point: the deepest selected-chain block at least
    /// `FINALITY_DEPTH` blue-score levels below the selected tip; `None`
    /// until the selected tip's blue score exceeds `FINALITY_DEPTH`.
    pub fn finality_point(&self) -> (r: Option<crate::hash::Hash>)
        requires
            self.wf(),
        ensures
            self.store.present_indices(self.tips@).len() == 0 ==> r is None,
            forall|t: usize| #[trigger] is_best_of(self.store, self.store.present_indices(self.tips@), t) ==> {
                &&& self.store.score(t as int) <= FINALITY_DEPTH ==> r is None
                &&& self.store.score(t as int) > FINALITY_DEPTH ==> exists|c: Seq<usize>| #[trigger] is_selected_chain(self.store, c, t as int)
                    && match r {
                        Some(h) => last_within(self.store, c, self.store.score(t as int) - FINALITY_DEPTH) == Some(h@),
                        None => last_within(self.store, c, self.store.score(t as int) - FINALITY_DEPTH) is None,
                    }
            },
    {
        let ghost s = self.store;
        let p = present_parent_indices(&self.store, self.tips.as_slice());
        if p.len() == 0 {
            return None;
        }
        let tip = select_parent_idx(&self.store, &p);
        proof {
            assert forall|x: usize| is_best_of(s, p@, x) implies x == tip by {
                lemma_best_unique(s, p@, x, tip);
            }
        }
        let tip_score = self.store.nodes[tip].blue_score;
        if tip_score <= FINALITY_DEPTH {
            return None;
        }
        let threshold = tip_score - FINALITY_DEPTH;
        let chain = selected_chain_idx(&self.store, tip);
        let mut fp: Option<crate::hash::Hash> = None;
        let mut i: usize = 0;
        while i < chain.len()
            invariant_except_break
                i <= chain@.len(),
                is_selected_chain(s, chain@, tip as int),
                s == self.store,
                first_above(s, chain@, threshold as int, 0) == first_above(s, chain@, threshold as int, i as int),
                i == 0 ==> fp is None,
                i > 0 ==> (fp matches Some(h) && h@ == s.hash_of(chain@[i - 1] as int)),
            ensures
                match fp {
                    Some(h) => last_within(s, chain@, threshold as int) == Some(h@),
                    None => last_within(s, chain@, threshold as int) is None,
                },
            decreases chain@.len() - i,
        {
            let b = chain[i];
            if self.store.nodes[b].blue_score <= threshold {
                fp = Some(self.store.nodes[b].hash);
            } else {
                break;
            }
            i = i + 1;
        }
        fp
    }

    /// Whether the body of the block with hash `hash` has been pruned (it
    /// holds no transfers, proof or certificate signature); `false` for an
    /// unknown block.
    pub fn is_body_pruned(&self, hash: &crate::hash::Hash) -> (r: bool)
        requires
            self.wf(),
        ensures
            r == (self.store.has(hash@) && body_empty(self.blocks@[self.store.idx_of(hash@)])),
    {
        match index_of(&self.store, hash) {
            Some(i) => {
                proof {
                    self.store.lemma_idx_of_unique(hash@, i as int);
                }
                let b = &self.blocks[i];
                b.transparent_txs.len() == 0 && b.stark_proof.len() == 0 && b.birth_certificate.signature.len() == 0
            },
            None => false,
        }
    }

    /// On a non-archival node, once the selected tip's blue score exceeds
    /// `FINALITY_DEPTH`, remove the body of every block buried at least
    /// `FINALITY_DEPTH` blue levels below it; headers, GHOSTDAG data and all
    /// other state are kept.
    pub fn prune_bodies(&mut self)
        requires
            old(self).wf(),
        ensures
            final(self).wf(),
            *final(self) == (ChainState { blocks: final(self).blocks, ..*old(self) }),
            final(self).blocks@.len() == old(self).blocks@.len(),
            forall|i: int| 0 <= i < old(self).blocks@.len() ==> {
                let buried = !old(self).archival && spec_tip_score(old(self).store, old(self).tips@) > FINALITY_DEPTH
                    && old(self).store.score(i) <= spec_tip_score(old(self).store, old(self).tips@) - FINALITY_DEPTH
                    && !body_empty(old(self).blocks@[i]);
                if buried {
                    body_stripped(old(self).blocks@[i], #[trigger] final(self).blocks@[i])
                } else {
                    final(self).blocks@[i] == old(self).blocks@[i]
                }
            },
    {
        if self.archival {
            return;
        }
        let tip_score = self.selected_tip_blue_score();
        if tip_score <= FINALITY_DEPTH {
            return;
        }
        let threshold = tip_score - FINALITY_DEPTH;
        let ghost before = *self;
        let n = self.blocks.len();
        let mut i: usize = 0;
        while i < n
            invariant
                i <= n,
                n == before.blocks@.len(),
                before.wf(),
                !before.archival,
                threshold == spec_tip_score(before.store, before.tips@) - FINALITY_DEPTH,
                spec_tip_score(before.store, before.tips@) > FINALITY_DEPTH,
                *self == (ChainState { blocks: self.blocks, ..before }),
                self.blocks@.len() == n,
                forall|k: int| i <= k < n ==> #[trigger] self.blocks@[k] == before.blocks@[k],
                forall|k: int| 0 <= k < i ==> {
                    let buried = before.store.score(k) <= threshold && !body_empty(before.blocks@[k]);
                    if buried {
                        body_stripped(before.blocks@[k], #[trigger] self.blocks@[k])
                    } else {
                        self.blocks@[k] == before.blocks@[k]
                    }
                },
            decreases n - i,
        {
            let b = &self.blocks[i];
            let empty = b.transparent_txs.len() == 0 && b.stark_proof.len() == 0 && b.birth_certificate.signature.len() == 0;
            if self.store.nodes[i].blue_score <= threshold && !empty {
                let nb = b.without_body();
                self.blocks.set(i, nb);
            }
            i = i + 1;
        }
        proof {
            assert forall|k: int| 0 <= k < self.blocks@.len() implies #[trigger] self.store.hash_of(k) == spec_block_hash(self.blocks@[k]) by {
                assert(before.store.hash_of(k) == spec_block_hash(before.blocks@[k]));
                if self.blocks@[k] != before.blocks@[k] {
                    crate::block::lemma_stripped_hash(before.blocks@[k], self.blocks@[k]);
                }
            }
        }
    }
}

/// Position in `c` of the first block with hash `pp`.
pub open spec fn first_at(s: DagStore, c: Seq<usize>, pp: Seq<u8>) -> Option<int> {
    if exists|q: int| 0 <= q < c.len() && s.hash_of(c[q] as int) == pp {
        Some(choose|q: int| 0 <= q < c.len() && s.hash_of(c[q] as int) == pp && forall|j: int| 0 <= j < q ==> s.hash_of(c[j] as int) != pp)
    } else {
        None
    }
}

/// `headers` are header-only copies of the blocks at positions `c[0..=m]`.
pub open spec fn headers_of(blocks: Seq<Block>, c: Seq<usize>, m: int, headers: Seq<Block>) -> bool {
    &&& headers.len() == m + 1
    &&& forall|k: int| 0 <= k <= m ==> {
        &&& spec_identity(#[trigger] headers[k]) == spec_identity(blocks[c[k] as int])
        &&& body_empty(headers[k])
    }
}

impl ChainState {
    /// The cold-start pruning-point proof: header-only copies of the selected
    /// chain from its first block through the pruning point. `None` without a
    /// pruning point or a stored tip, when the selected chain does not reach
    /// the pruning point, or when it does not start at genesis.
    pub fn build_pruning_proof(&self) -> (r: Option<PruningProof>)
        requires
            self.wf(),
        ensures
            (self.pruning_point is None || self.store.present_indices(self.tips@).len() == 0) ==> r is None,
            forall|t: usize| #[trigger] is_best_of(self.store, self.store.present_indices(self.tips@), t) ==> (self.pruning_point matches Some(pp) ==>
                exists|c: Seq<usize>| #[trigger] is_selected_chain(self.store, c, t as int) && match first_at(self.store, c, pp@) {
                    None => r is None,
                    Some(m) => if spec_block_hash(self.blocks@[c[0] as int]) == blake3_xof(spec_genesis_identity(), 64) {
                        r matches Some(p) && headers_of(self.blocks@, c, m, p.headers@)
                            && forall|k: int| 0 <= k <= m ==> spec_block_hash(#[trigger] p.headers@[k]) == self.store.hash_of(c[k] as int)
                    } else {
                        r is None
                    },
                }),
    {
        let ghost s = self.store;
        let pp = match self.pruning_point {
            Some(pp) => pp,
            None => {
                return None;
            },
        };
        let p = present_parent_indices(&self.store, self.tips.as_slice());
        if p.len() == 0 {
            return None;
        }
        let tip = select_parent_idx(&self.store, &p);
        proof {
            assert forall|x: usize| is_best_of(s, p@, x) implies x == tip by {
                lemma_best_unique(s, p@, x, tip);
            }
        }
        let chain = selected_chain_idx(&self.store, tip);
        proof {
            assert forall|q: int| 0 <= q < chain@.len() implies (#[trigger] chain@[q]) < s.len() by {}
        }
        let mut headers: Vec<Block> = Vec::new();
        let mut reached = false;
        let mut i: usize = 0;
        while i < chain.len()
            invariant_except_break
                self.blocks@.len() == s.len(),
                s == self.store,
                forall|q: int| 0 <= q < chain@.len() ==> (#[trigger] chain@[q]) < s.len(),
                i <= chain@.len(),
                !reached,
                forall|j: int| 0 <= j < i ==> s.hash_of(chain@[j] as int) != pp@,
                headers@.len() == i,
                forall|k: int| 0 <= k < i ==> {
                    &&& spec_identity(#[trigger] headers@[k]) == spec_identity(self.blocks@[chain@[k] as int])
                    &&& body_empty(headers@[k])
                },
            ensures
                s == self.store,
                reached ==> (first_at(s, chain@, pp@) == Some(i as int) && i < chain@.len() && headers@.len() == i + 1),
                !reached ==> first_at(s, chain@, pp@) is None,
                forall|k: int| 0 <= k < headers@.len() ==> {
                    &&& spec_identity(#[trigger] headers@[k]) == spec_identity(self.blocks@[chain@[k] as int])
                    &&& body_empty(headers@[k])
                },
            decreases chain@.len() - i,
        {
            let c = chain[i];
            let hb = self.blocks[c].header_only();
            headers.push(hb);
            if self.store.nodes[c].hash.equals(&pp) {
                reached = true;
                proof {
                    let w = choose|q: int| 0 <= q < chain@.len() && s.hash_of(chain@[q] as int) == pp@ && forall|j: int| 0 <= j < q ==> s.hash_of(chain@[j] as int) != pp@;
                    assert(s.hash_of(chain@[i as int] as int) == pp@);
                    if w < i {
                        assert(s.hash_of(chain@[w] as int) != pp@);
                    } else if w > i {
                        assert(s.hash_of(chain@[i as int] as int) != pp@);
                    }
                }
                break;
            }
            i = i + 1;
        }
        if !reached {
            return None;
        }
        let first = headers[0].hash();
        let g = genesis_hash();
        if !first.equals(&g) {
            return None;
        }
        Some(PruningProof { headers })
    }
}

/// How many of the timestamps are at most `r`.
pub open spec fn count_at_most(t: Seq<u64>, r: u64) -> nat
    decreases t.len(),
{
    if t.len() == 0 { 0 } else { count_at_most(t.drop_last(), r) + if t.last() <= r { 1nat } else { 0nat } }
}

/// How many of the timestamps are at least `r`.
pub open spec fn count_at_least(t: Seq<u64>, r: u64) -> nat
    decreases t.len(),
{
    if t.len() == 0 { 0 } else { count_at_least(t.drop_last(), r) + if t.last() >= r { 1nat } else { 0nat } }
}

/// Count of wide values at most (`le`) or at least (`!le`) `r`.
spec fn count_wide(v: Seq<u128>, r: u128, le: bool) -> nat
    decreases v.len(),
{
    if v.len() == 0 {
        0
    } else {
        count_wide(v.drop_last(), r, le) + if (le && v.last() <= r) || (!le && v.last() >= r) { 1nat } else { 0nat }
    }
}

proof fn lemma_count_widen(t: Seq<u64>, r: u64)
    ensures
        count_at_most(t, r) == count_wide(t.map_values(|x: u64| x as u128), r as u128, true),
        count_at_least(t, r) == count_wide(t.map_values(|x: u64| x as u128), r as u128, false),
    decreases t.len(),
{
    if t.len() > 0 {
        lemma_count_widen(t.drop_last(), r);
        assert(t.map_values(|x: u64| x as u128).drop_last() =~= t.drop_last().map_values(|x: u64| x as u128));
    }
}

proof fn lemma_count_remove(v: Seq<u128>, r: u128, le: bool, k: int)
    requires
        0 <= k < v.len(),
    ensures
        count_wide(v, r, le) == count_wide(v.remove(k), r, le) + if (le && v[k] <= r) || (!le && v[k] >= r) { 1nat } else { 0nat },
    decreases v.len(),
{
    if k < v.len() - 1 {
        lemma_count_remove(v.drop_last(), r, le, k);
        assert(v.remove(k).drop_last() =~= v.drop_last().remove(k));
        assert(v.remove(k).last() == v.last());
    } else {
        assert(v.remove(k) =~= v.drop_last());
    }
}

proof fn lemma_count_perm(a: Seq<u128>, b: Seq<u128>, r: u128, le: bool)
    requires
        a.to_multiset() == b.to_multiset(),
    ensures
        count_wide(a, r, le) == count_wide(b, r, le),
    decreases a.len(),
{
    broadcast use vstd::multiset::group_multiset_axioms;
    vstd::seq_lib::to_multiset_len(a);
    vstd::seq_lib::to_multiset_len(b);
    if a.len() > 0 {
        let x = a.last();
        let d = a.drop_last();
        assert(a =~= d.push(x));
        vstd::seq_lib::to_multiset_build(d, x);
        vstd::seq_lib::to_multiset_contains(b, x);
        assert(b.to_multiset().count(x) > 0);
        assert(b.contains(x));
        let k = choose|k: int| 0 <= k < b.len() && b[k] == x;
        vstd::seq_lib::to_multiset_remove(b, k);
        assert(d.to_multiset() =~= b.remove(k).to_multiset());
        lemma_count_perm(d, b.remove(k), r, le);
        lemma_count_remove(b, r, le, k);
    }
}

proof fn lemma_count_prefix(v: Seq<u128>, r: u128, k: int)
    requires
        0 <= k <= v.len(),
        forall|i: int| 0 <= i < k ==> #[trigger] v[i] <= r,
    ensures
        count_wide(v, r, true) >= k,
    decreases v.len(),
{
    if v.len() > 0 {
        if k == v.len() {
            lemma_count_prefix(v.drop_last(), r, k - 1);
            assert(v[v.len() - 1] <= r);
        } else {
            lemma_count_prefix(v.drop_last(), r, k);
        }
    }
}

proof fn lemma_count_suffix(v: Seq<u128>, r: u128, j: int)
    requires
        0 <= j <= v.len(),
        forall|i: int| j <= i < v.len() ==> #[trigger] v[i] >= r,
    ensures
        count_wide(v, r, false) >= v.len() - j,
    decreases v.len(),
{
    if v.len() > j {
        lemma_count_suffix(v.drop_last(), r, j);
        assert(v[v.len() - 1] >= r);
    }
}

/// Law: the median of a nonempty list of timestamps splits it: more than
/// half of them are at most the median, and at least half (rounded up) are
/// at least the median.
pub proof fn law_median_time_splits(t: Seq<u64>)
    requires
        t.len() > 0,
    ensures
        count_at_most(t, median_time(t)) > t.len() / 2,
        count_at_least(t, median_time(t)) >= t.len() - t.len() / 2,
{
    let w = t.map_values(|x: u64| x as u128);
    let v = w.sort_by(fee_leq());
    w.lemma_sort_by_ensures(fee_leq());
    vstd::seq_lib::to_multiset_len(w);
    vstd::seq_lib::to_multiset_len(v);
    let h = (v.len() / 2) as int;
    let m = v[h];
    assert(v.contains(m));
    assert(w.contains(m)) by {
        vstd::seq_lib::to_multiset_contains(v, m);
        vstd::seq_lib::to_multiset_contains(w, m);
    }
    let q = choose|q: int| 0 <= q < w.len() && w[q] == m;
    assert(m < 0x1_0000_0000_0000_0000);
    assert(median_time(t) as u128 == m);
    assert forall|i: int| 0 <= i < h + 1 implies #[trigger] v[i] <= m by {
        if i < h {
            assert(fee_leq()(v[i], v[h]));
        }
    }
    assert forall|i: int| h <= i < v.len() implies #[trigger] v[i] >= m by {
        if i > h {
            assert(fee_leq()(v[h], v[i]));
        }
    }
    lemma_count_prefix(v, m, h + 1);
    lemma_count_suffix(v, m, h);
    lemma_count_perm(w, v, m, true);
    lemma_count_perm(w, v, m, false);
    lemma_count_widen(t, median_time(t));
}

/// Law: the past median time of a stored block is the median of its
/// selected-chain timestamps (itself and up to ten ancestors): more than
/// half of them are at most it, and at least half are at least it.
pub proof fn law_past_median_time_is_median(s: DagStore, blocks: Seq<Block>, tip: Seq<u8>)
    requires
        s.has(tip),
    ensures
        ({
            let t = mtp_times(s, blocks, s.idx_of(tip), 11);
            &&& 1 <= t.len() <= 11
            &&& t[0] == blocks[s.idx_of(tip)].timestamp
            &&& count_at_most(t, spec_past_median_time(s, blocks, tip)) > t.len() / 2
            &&& count_at_least(t, spec_past_median_time(s, blocks, tip)) >= t.len() - t.len() / 2
        }),
{
    let i = s.idx_of(tip);
    assert(0 <= i < s.len());
    lemma_mtp_len(s, blocks, i, 11);
    law_median_time_splits(mtp_times(s, blocks, i, 11));
}

proof fn lemma_mtp_len(s: DagStore, blocks: Seq<Block>, i: int, k: nat)
    ensures
        mtp_times(s, blocks, i, k).len() <= k,
        0 <= i < s.len() && k > 0 ==> mtp_times(s, blocks, i, k).len() >= 1,
    decreases k,
{
    if k > 0 && 0 <= i < s.len() {
        match s.nodes@[i].selected_parent {
            Some(j) => {
                if j < i {
                    lemma_mtp_len(s, blocks, j as int, (k - 1) as nat);
                }
            },
            None => {},
        }
    }
}

} // verus!
