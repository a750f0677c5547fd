//! History pruning: dropping the headers and GHOSTDAG data of blocks buried
//! more than `PRUNING_DEPTH` blue levels below the selected tip.
use vstd::prelude::*;
use crate::admission::{
    best_of, chain_to, lemma_best_scores, lemma_present_bounded, lemma_present_from, lemma_present_has,
    lemma_selected_chain_unique,
};
use crate::block::{spec_block_hash, Block};
use crate::chain::{spec_tip_score, ChainState};
use crate::finality::first_above;
use crate::genesis::PRUNING_DEPTH;
use crate::ghostdag::{
    hash_views, hashes_at, index_of, is_best_of, is_selected_chain, outranks, lemma_best_unique, present_parent_indices,
    select_parent_idx, selected_chain, selected_tip, selected_chain_idx, DagNode, DagStore,
};

verus! {

/// The pruning target of a store with the given tips: the deepest block of
/// the selected tip's chain at least `PRUNING_DEPTH` blue levels below the
/// tip, with its position in that chain.
pub open spec fn prune_target(s: DagStore, tips: Seq<crate::hash::Hash>) -> Option<(int, int)> {
    let p = s.present_indices(tips);
    if p.len() == 0 {
        None
    } else {
        let tip = best_of(s, p);
        if s.score(tip as int) <= PRUNING_DEPTH {
            None
        } else {
            let c = chain_to(s, tip);
            let m = first_above(s, c, s.score(tip as int) - PRUNING_DEPTH, 0);
            if m <= 0 { None } else { Some((c[m - 1] as int, m - 1)) }
        }
    }
}

/// How many of the first `i` blocks have a blue score of at least `t`.
pub open spec fn kept_before(s: DagStore, t: int, i: int) -> int
    decreases i,
{
    if i <= 0 {
        0
    } else {
        kept_before(s, t, i - 1) + if s.score(i - 1) >= t { 1int } else { 0int }
    }
}

/// The references among `v` to kept blocks, renumbered.
pub open spec fn remap_refs(s: DagStore, t: int, v: Seq<usize>) -> Seq<usize>
    decreases v.len(),
{
    if v.len() == 0 {
        Seq::empty()
    } else {
        let r = remap_refs(s, t, v.drop_last());
        if s.score(v.last() as int) >= t { r.push(kept_before(s, t, v.last() as int) as usize) } else { r }
    }
}

/// Node `n` is node `o` with its references renumbered and references to
/// dropped blocks cut.
pub open spec fn node_remapped(s: DagStore, t: int, o: DagNode, n: DagNode) -> bool {
    &&& n.hash == o.hash
    &&& n.blue_score == o.blue_score
    &&& n.parents@ == remap_refs(s, t, o.parents@)
    &&& n.blues@ == remap_refs(s, t, o.blues@)
    &&& n.reds@ == remap_refs(s, t, o.reds@)
    &&& n.selected_parent == match o.selected_parent {
        Some(j) => if s.score(j as int) >= t { Some(kept_before(s, t, j as int) as usize) } else { None },
        None => None,
    }
}

/// `post` keeps, in order and renumbered, the blocks of `s` scoring at
/// least `t`.
pub open spec fn store_pruned(s: DagStore, t: int, post: DagStore) -> bool {
    &&& post.len() == kept_before(s, t, s.len())
    &&& forall|i: int| 0 <= i < s.len() && s.score(i) >= t
        ==> node_remapped(s, t, s.nodes@[i], #[trigger] post.nodes@[kept_before(s, t, i)])
}

/// `post` keeps, in order, the entries of `pre` at the positions of kept
/// blocks.
pub open spec fn blocks_kept(s: DagStore, t: int, pre: Seq<Block>, post: Seq<Block>) -> bool {
    &&& post.len() == kept_before(s, t, s.len())
    &&& forall|i: int| 0 <= i < s.len() && s.score(i) >= t ==> #[trigger] post[kept_before(s, t, i)] == pre[i]
}

/// The tips that are stored and score at least `t`, in order.
pub open spec fn tips_kept(s: DagStore, t: int, tips: Seq<crate::hash::Hash>) -> Seq<crate::hash::Hash>
    decreases tips.len(),
{
    if tips.len() == 0 {
        Seq::empty()
    } else {
        let r = tips_kept(s, t, tips.drop_last());
        let x = tips.last();
        if s.has(x@) && s.score(s.idx_of(x@)) >= t { r.push(x) } else { r }
    }
}

/// Position `m` of the pruned store holds some kept block of `s`.
spec fn has_origin(s: DagStore, t: int, m: int) -> bool {
    exists|o: int| 0 <= o < s.len() && s.score(o) >= t && #[trigger] kept_before(s, t, o) == m
}

proof fn lemma_kept_mono(s: DagStore, t: int, j: int, i: int)
    requires
        0 <= j <= i,
    ensures
        kept_before(s, t, j) <= kept_before(s, t, i),
        j < i && s.score(j) >= t ==> kept_before(s, t, j) + 1 <= kept_before(s, t, i),
        kept_before(s, t, i) <= i,
        kept_before(s, t, j) >= 0,
    decreases i,
{
    if i > 0 {
        if j < i {
            lemma_kept_mono(s, t, j, i - 1);
        }
        lemma_kept_mono(s, t, 0, i - 1);
    }
}

proof fn lemma_remap_below(s: DagStore, t: int, v: Seq<usize>, y: int)
    requires
        forall|k: int| 0 <= k < v.len() ==> (#[trigger] v[k]) < y,
    ensures
        forall|k: int| 0 <= k < remap_refs(s, t, v).len() ==> (#[trigger] remap_refs(s, t, v)[k]) < kept_before(s, t, y),
    decreases v.len(),
{
    if v.len() > 0 {
        let d = v.drop_last();
        assert forall|k: int| 0 <= k < d.len() implies (#[trigger] d[k]) < y by {
            assert(d[k] == v[k]);
        }
        lemma_remap_below(s, t, d, y);
        let r = remap_refs(s, t, d);
        let x = v.last() as int;
        assert(v[v.len() - 1] == v.last());
        if s.score(x) >= t {
            lemma_kept_mono(s, t, x, y);
            assert forall|k: int| 0 <= k < remap_refs(s, t, v).len() implies (#[trigger] remap_refs(s, t, v)[k]) < kept_before(s, t, y) by {
                if k < r.len() {
                    assert(remap_refs(s, t, v)[k] == r[k]);
                }
            }
        }
    }
}

/// The references among `refs` to kept blocks, renumbered by `map`.
fn remap(refs: &Vec<usize>, keep: &Vec<bool>, map: &Vec<usize>, Ghost(s): Ghost<DagStore>, Ghost(t): Ghost<int>) -> (r: Vec<usize>)
    requires
        keep@.len() == s.len(),
        map@.len() == s.len(),
        forall|i: int| 0 <= i < s.len() ==> #[trigger] keep@[i] == (s.score(i) >= t),
        forall|i: int| 0 <= i < s.len() ==> #[trigger] map@[i] as int == kept_before(s, t, i),
        forall|k: int| 0 <= k < refs@.len() ==> (#[trigger] refs@[k]) < s.len(),
    ensures
        r@ == remap_refs(s, t, refs@),
{
    let mut out: Vec<usize> = Vec::new();
    let mut k: usize = 0;
    while k < refs.len()
        invariant
            k <= refs@.len(),
            keep@.len() == s.len(),
            map@.len() == s.len(),
            forall|i: int| 0 <= i < s.len() ==> #[trigger] keep@[i] == (s.score(i) >= t),
            forall|i: int| 0 <= i < s.len() ==> #[trigger] map@[i] as int == kept_before(s, t, i),
            forall|q: int| 0 <= q < refs@.len() ==> (#[trigger] refs@[q]) < s.len(),
            out@ == remap_refs(s, t, refs@.take(k as int)),
        decreases refs@.len() - k,
    {
        proof {
            assert(refs@.take(k + 1).drop_last() =~= refs@.take(k as int));
            assert(refs@.take(k + 1).last() == refs@[k as int]);
        }
        let x = refs[k];
        if keep[x] {
            out.push(map[x]);
        }
        k = k + 1;
    }
    proof {
        assert(refs@.take(refs@.len() as int) =~= refs@);
    }
    out
}

/// Which blocks score at least `t`, each kept block's new position, and how
/// many are kept.
fn keep_map(s: &DagStore, t: u64) -> (r: (Vec<bool>, Vec<usize>, usize))
    ensures
        r.0@.len() == s.len(),
        r.1@.len() == s.len(),
        r.2 as int == kept_before(*s, t as int, s.len()),
        forall|x: int| 0 <= x < s.len() ==> #[trigger] r.0@[x] == (s.score(x) >= t as int),
        forall|x: int| 0 <= x < s.len() ==> #[trigger] r.1@[x] as int == kept_before(*s, t as int, x),
{
    let ghost ti = t as int;
    let n = s.nodes.len();
    let mut keep: Vec<bool> = Vec::new();
    let mut map: Vec<usize> = Vec::new();
    let mut count: usize = 0;
    let mut j: usize = 0;
    while j < n
        invariant
            j <= n == s.len(),
            ti == t as int,
            keep@.len() == j,
            map@.len() == j,
            count as int == kept_before(*s, ti, j as int),
            forall|x: int| 0 <= x < j ==> #[trigger] keep@[x] == (s.score(x) >= ti),
            forall|x: int| 0 <= x < j ==> #[trigger] map@[x] as int == kept_before(*s, ti, x),
        decreases n - j,
    {
        proof {
            lemma_kept_mono(*s, ti, j as int, j as int);
        }
        let k = s.nodes[j].blue_score >= t;
        keep.push(k);
        map.push(count);
        if k {
            count = count + 1;
        }
        proof {
            assert(kept_before(*s, ti, j + 1) == kept_before(*s, ti, j as int) + if s.score(j as int) >= ti { 1int } else { 0int });
        }
        j = j + 1;
    }
    (keep, map, count)
}

/// The store with the kept blocks only, renumbered.
#[verifier::rlimit(40)]
fn renumber(s: &DagStore, keep: &Vec<bool>, map: &Vec<usize>, Ghost(ti): Ghost<int>) -> (r: DagStore)
    requires
        s.wf(),
        keep@.len() == s.len(),
        map@.len() == s.len(),
        forall|x: int| 0 <= x < s.len() ==> #[trigger] keep@[x] == (s.score(x) >= ti),
        forall|x: int| 0 <= x < s.len() ==> #[trigger] map@[x] as int == kept_before(*s, ti, x),
    ensures
        r.wf(),
        store_pruned(*s, ti, r),
        forall|m: int| 0 <= m < r.len() ==> #[trigger] has_origin(*s, ti, m),
{
    let n = s.nodes.len();
    let mut nodes: Vec<DagNode> = Vec::new();
    let ghost mut orig: Seq<int> = Seq::empty();
    let mut y: usize = 0;
    while y < n
        invariant
            y <= n == s.len(),
            s.wf(),
            keep@.len() == n,
            map@.len() == n,
            forall|x: int| 0 <= x < n ==> #[trigger] keep@[x] == (s.score(x) >= ti),
            forall|x: int| 0 <= x < n ==> #[trigger] map@[x] as int == kept_before(*s, ti, x),
            nodes@.len() == kept_before(*s, ti, y as int),
            orig.len() == nodes@.len(),
            forall|m: int| 0 <= m < orig.len() ==> 0 <= #[trigger] orig[m] < y && s.score(orig[m]) >= ti
                && kept_before(*s, ti, orig[m]) == m && node_remapped(*s, ti, s.nodes@[orig[m]], nodes@[m]),
            forall|m1: int, m2: int| 0 <= m1 < m2 < orig.len() ==> #[trigger] orig[m1] < #[trigger] orig[m2],
            forall|i: int| 0 <= i < y && s.score(i) >= ti ==> #[trigger] orig[kept_before(*s, ti, i)] == i,
        decreases n - y,
    {
        proof {
            lemma_kept_mono(*s, ti, y as int, y as int + 1);
        }
        if keep[y] {
            let o = &s.nodes[y];
            proof {
                assert forall|k: int| 0 <= k < o.parents@.len() implies (#[trigger] o.parents@[k]) < s.len() by {
                    assert(s.par(y as int, k) < y);
                }
            }
            let parents = remap(&o.parents, keep, map, Ghost(*s), Ghost(ti));
            let blues = remap(&o.blues, keep, map, Ghost(*s), Ghost(ti));
            let reds = remap(&o.reds, keep, map, Ghost(*s), Ghost(ti));
            let sp = match o.selected_parent {
                Some(q) => if keep[q] { Some(map[q]) } else { None },
                None => None,
            };
            let ghost m0 = nodes@.len() as int;
            let ghost n0 = nodes@;
            nodes.push(DagNode { hash: o.hash, parents, blue_score: o.blue_score, selected_parent: sp, blues, reds });
            proof {
                let o0 = orig;
                orig = orig.push(y as int);
                assert forall|m: int| 0 <= m < orig.len() implies 0 <= #[trigger] orig[m] < y + 1 && s.score(orig[m]) >= ti
                    && kept_before(*s, ti, orig[m]) == m && node_remapped(*s, ti, s.nodes@[orig[m]], nodes@[m]) by {
                    if m < m0 {
                        assert(orig[m] == o0[m]);
                        assert(nodes@[m] == n0[m]);
                    }
                }
                assert forall|m1: int, m2: int| 0 <= m1 < m2 < orig.len() implies #[trigger] orig[m1] < #[trigger] orig[m2] by {
                    if m2 < m0 {
                        assert(orig[m1] == o0[m1] && orig[m2] == o0[m2]);
                    } else {
                        assert(orig[m1] == o0[m1]);
                    }
                }
                assert forall|i: int| 0 <= i < y + 1 && s.score(i) >= ti implies #[trigger] orig[kept_before(*s, ti, i)] == i by {
                    if i < y {
                        lemma_kept_mono(*s, ti, i, y as int);
                        assert(orig[kept_before(*s, ti, i)] == o0[kept_before(*s, ti, i)]);
                    }
                }
            }
        }
        y = y + 1;
    }
    let r = DagStore { nodes };
    proof {
        lemma_store_pruned(*s, ti, r, orig);
    }
    r
}

proof fn lemma_store_pruned(s: DagStore, ti: int, r: DagStore, orig: Seq<int>)
    requires
        s.wf(),
        r.len() == kept_before(s, ti, s.len()),
        orig.len() == r.len(),
        forall|m: int| 0 <= m < orig.len() ==> 0 <= #[trigger] orig[m] < s.len() && s.score(orig[m]) >= ti
            && kept_before(s, ti, orig[m]) == m && node_remapped(s, ti, s.nodes@[orig[m]], r.nodes@[m]),
        forall|m1: int, m2: int| 0 <= m1 < m2 < orig.len() ==> #[trigger] orig[m1] < #[trigger] orig[m2],
        forall|i: int| 0 <= i < s.len() && s.score(i) >= ti ==> #[trigger] orig[kept_before(s, ti, i)] == i,
    ensures
        r.wf(),
        store_pruned(s, ti, r),
        forall|m: int| 0 <= m < r.len() ==> #[trigger] has_origin(s, ti, m),
{
    assert forall|a: int, k: int| 0 <= a < r.len() && 0 <= k < r.npar(a) implies #[trigger] r.par(a, k) < a by {
        let o = orig[a];
        assert forall|q: int| 0 <= q < s.nodes@[o].parents@.len() implies (#[trigger] s.nodes@[o].parents@[q]) < o by {
            assert(s.par(o, q) < o);
        }
        lemma_remap_below(s, ti, s.nodes@[o].parents@, o);
    }
    assert forall|a: int| 0 <= a < r.len() implies match #[trigger] r.nodes@[a].selected_parent {
        Some(q) => q < a,
        None => true,
    } by {
        let o = orig[a];
        match s.nodes@[o].selected_parent {
            Some(q) => {
                if s.score(q as int) >= ti {
                    lemma_kept_mono(s, ti, q as int, o);
                }
            },
            None => {},
        }
    }
    assert forall|a: int, k: int| 0 <= a < r.len() && 0 <= k < r.nodes@[a].blues@.len() implies #[trigger] r.nodes@[a].blues@[k] < a by {
        let o = orig[a];
        lemma_remap_below(s, ti, s.nodes@[o].blues@, o);
    }
    assert forall|a: int, k: int| 0 <= a < r.len() && 0 <= k < r.nodes@[a].reds@.len() implies #[trigger] r.nodes@[a].reds@[k] < a by {
        let o = orig[a];
        lemma_remap_below(s, ti, s.nodes@[o].reds@, o);
    }
    assert forall|a: int, b: int| 0 <= a < r.len() && 0 <= b < r.len() && a != b implies #[trigger] r.hash_of(a) != #[trigger] r.hash_of(b) by {
        if a < b {
            assert(orig[a] < orig[b]);
        } else {
            assert(orig[b] < orig[a]);
        }
        assert(s.hash_of(orig[a]) != s.hash_of(orig[b]));
    }
    assert forall|i: int| 0 <= i < s.len() && s.score(i) >= ti implies node_remapped(s, ti, s.nodes@[i], #[trigger] r.nodes@[kept_before(s, ti, i)]) by {
        lemma_kept_mono(s, ti, i, s.len());
        assert(orig[kept_before(s, ti, i)] == i);
    }
    assert forall|m: int| 0 <= m < r.len() implies #[trigger] has_origin(s, ti, m) by {
        assert(kept_before(s, ti, orig[m]) == m);
    }
}

/// The entries of `bl` at the positions of kept blocks, in order.
fn keep_blocks(bl: Vec<Block>, keep: &Vec<bool>, Ghost(s): Ghost<DagStore>, Ghost(ti): Ghost<int>) -> (r: Vec<Block>)
    requires
        bl@.len() == s.len(),
        keep@.len() == s.len(),
        forall|x: int| 0 <= x < s.len() ==> #[trigger] keep@[x] == (s.score(x) >= ti),
    ensures
        blocks_kept(s, ti, bl@, r@),
{
    let ghost oldb = bl@;
    let n = bl.len();
    let mut src = bl;
    let mut dst: Vec<Block> = Vec::new();
    let mut i: usize = 0;
    while i < n
        invariant
            i <= n == s.len(),
            oldb.len() == n,
            keep@.len() == n,
            forall|x: int| 0 <= x < n ==> #[trigger] keep@[x] == (s.score(x) >= ti),
            src@ == oldb.subrange(i as int, n as int),
            dst@.len() == kept_before(s, ti, i as int),
            forall|x: int| 0 <= x < i && s.score(x) >= ti ==> #[trigger] dst@[kept_before(s, ti, x)] == oldb[x],
        decreases n - i,
    {
        let b = src.remove(0);
        proof {
            assert(b == oldb[i as int]);
            assert(src@ =~= oldb.subrange(i + 1, n as int));
            lemma_kept_mono(s, ti, i as int, i as int);
        }
        let ghost d0 = dst@;
        if keep[i] {
            dst.push(b);
        }
        proof {
            assert forall|x: int| 0 <= x < i + 1 && s.score(x) >= ti implies #[trigger] dst@[kept_before(s, ti, x)] == oldb[x] by {
                if x < i {
                    lemma_kept_mono(s, ti, x, i as int);
                    assert(dst@[kept_before(s, ti, x)] == d0[kept_before(s, ti, x)]);
                }
            }
        }
        i = i + 1;
    }
    proof {
        assert forall|x: int| 0 <= x < s.len() && s.score(x) >= ti implies #[trigger] dst@[kept_before(s, ti, x)] == oldb[x] by {}
    }
    dst
}

/// The tips that are stored and kept, in order.
fn kept_tips(s: &DagStore, tips: &Vec<crate::hash::Hash>, keep: &Vec<bool>, Ghost(ti): Ghost<int>) -> (r: Vec<crate::hash::Hash>)
    requires
        s.wf(),
        keep@.len() == s.len(),
        forall|x: int| 0 <= x < s.len() ==> #[trigger] keep@[x] == (s.score(x) >= ti),
    ensures
        r@ == tips_kept(*s, ti, tips@),
{
    let mut out: Vec<crate::hash::Hash> = Vec::new();
    let mut q: usize = 0;
    while q < tips.len()
        invariant
            q <= tips@.len(),
            s.wf(),
            keep@.len() == s.len(),
            forall|x: int| 0 <= x < s.len() ==> #[trigger] keep@[x] == (s.score(x) >= ti),
            out@ == tips_kept(*s, ti, tips@.take(q as int)),
        decreases tips@.len() - q,
    {
        proof {
            assert(tips@.take(q + 1).drop_last() =~= tips@.take(q as int));
            assert(tips@.take(q + 1).last() == tips@[q as int]);
        }
        match index_of(s, &tips[q]) {
            Some(ix) => {
                proof {
                    s.lemma_idx_of_unique(tips@[q as int]@, ix as int);
                }
                if keep[ix] {
                    out.push(tips[q]);
                }
            },
            None => {
                proof {
                    assert(!s.has(tips@[q as int]@));
                }
            },
        }
        q = q + 1;
    }
    proof {
        assert(tips@.take(tips@.len() as int) =~= tips@);
    }
    out
}

/// `post` is `pre` after history pruning: unchanged on an archival node,
/// with no pruning target, or when nothing scores below the pruning point;
/// otherwise the blocks below the pruning point's blue score are dropped,
/// the rest renumbered, the tips filtered, the selected chain rebuilt and
/// the pruning point and dropped-chain count recorded.
pub open spec fn history_pruned(pre: ChainState, post: ChainState) -> bool {
    &&& pre.archival ==> post == pre
    &&& !pre.archival ==> match prune_target(pre.store, pre.tips@) {
        None => post == pre,
        Some((pp, pos)) => {
            let s = pre.store;
            let t = s.score(pp);
            if kept_before(s, t, s.len()) == s.len() {
                post == pre
            } else {
                &&& store_pruned(s, t, post.store)
                &&& blocks_kept(s, t, pre.blocks@, post.blocks@)
                &&& post.tips@ == tips_kept(s, t, pre.tips@)
                &&& post.pruning_point matches Some(h) && h@ == s.hash_of(pp)
                &&& post.pruned_selected_blocks == if pre.pruned_selected_blocks + pos <= u64::MAX {
                    pre.pruned_selected_blocks + pos
                } else {
                    u64::MAX as int
                }
                &&& (post.store.present_indices(post.tips@).len() > 0 ==> exists|tn: usize, c: Seq<usize>|
                    #[trigger] is_best_of(post.store, post.store.present_indices(post.tips@), tn)
                    && #[trigger] is_selected_chain(post.store, c, tn as int)
                    && hash_views(post.main_chain@) == hashes_at(post.store, c))
                &&& post == (ChainState {
                    store: post.store,
                    blocks: post.blocks,
                    tips: post.tips,
                    main_chain: post.main_chain,
                    pruning_point: post.pruning_point,
                    pruned_selected_blocks: post.pruned_selected_blocks,
                    ..pre
                })
            }
        }
    }
}

impl ChainState {
    /// On a non-archival node, once the selected tip's blue score exceeds
    /// `PRUNING_DEPTH`: take as pruning point the deepest block of the
    /// selected chain at least `PRUNING_DEPTH` blue levels below the tip,
    /// and drop every block scoring below it (headers, GHOSTDAG data and
    /// bodies), renumbering the rest and cutting references to dropped
    /// blocks. Tips that are dropped or not stored leave the tip list; the
    /// selected chain is rebuilt, the count of dropped selected-chain blocks
    /// grows by the pruning point's position in the old chain, and the
    /// pruning point is recorded. Balances and supply are untouched.
    pub fn prune_history(&mut self)
        requires
            old(self).wf(),
        ensures
            final(self).wf(),
            history_pruned(*old(self), *final(self)),
    {
        if self.archival {
            return;
        }
        let ghost s = self.store;
        let p = present_parent_indices(&self.store, self.tips.as_slice());
        if p.len() == 0 {
            return;
        }
        let tip = select_parent_idx(&self.store, &p);
        proof {
            lemma_best_unique(s, p@, best_of(s, p@), tip);
        }
        let tip_score = self.store.nodes[tip].blue_score;
        if tip_score <= PRUNING_DEPTH {
            return;
        }
        let threshold = tip_score - PRUNING_DEPTH;
        let chain = selected_chain_idx(&self.store, tip);
        proof {
            lemma_selected_chain_unique(s, chain@, chain_to(s, tip), tip as int);
        }
        let mut found: Option<usize> = None;
        let mut pos: usize = 0;
        let mut i: usize = 0;
        while i < chain.len()
            invariant_except_break
                i <= chain@.len(),
                is_selected_chain(s, chain@, tip as int),
                s == self.store,
                first_above(s, chain@, threshold as int, 0) == first_above(s, chain@, threshold as int, i as int),
                i == 0 ==> found is None,
                i > 0 ==> (found == Some(chain@[i - 1]) && pos == i - 1),
                forall|q: int| 0 <= q < chain@.len() ==> (#[trigger] chain@[q]) < s.len(),
            ensures
                found matches Some(x) ==> x < s.len(),
                match found {
                    Some(x) => first_above(s, chain@, threshold as int, 0) > 0
                        && x == chain@[first_above(s, chain@, threshold as int, 0) - 1]
                        && pos == first_above(s, chain@, threshold as int, 0) - 1,
                    None => first_above(s, chain@, threshold as int, 0) <= 0,
                },
            decreases chain@.len() - i,
        {
            let b = chain[i];
            if self.store.nodes[b].blue_score <= threshold {
                found = Some(b);
                pos = i;
            } else {
                break;
            }
            i = i + 1;
        }
        let pp = match found {
            Some(x) => x,
            None => {
                return;
            },
        };
        let t = self.store.nodes[pp].blue_score;
        let ghost ti = t as int;
        let (keep, map, count) = keep_map(&self.store, t);
        if count == self.store.nodes.len() {
            return;
        }
        let ns = renumber(&self.store, &keep, &map, Ghost(ti));
        let ghost oldb = self.blocks@;
        let mut bl: Vec<Block> = Vec::new();
        std::mem::swap(&mut bl, &mut self.blocks);
        let kept_blocks = keep_blocks(bl, &keep, Ghost(s), Ghost(ti));
        let tips = kept_tips(&self.store, &self.tips, &keep, Ghost(ti));
        let pp_hash = self.store.nodes[pp].hash;
        self.store = ns;
        self.blocks = kept_blocks;
        self.tips = tips;
        self.pruning_point = Some(pp_hash);
        self.pruned_selected_blocks = self.pruned_selected_blocks.saturating_add(pos as u64);
        proof {
            assert forall|m: int| 0 <= m < self.blocks@.len() implies #[trigger] self.store.hash_of(m) == spec_block_hash(self.blocks@[m]) by {
                assert(has_origin(s, ti, m));
                let o = choose|o: int| 0 <= o < s.len() && s.score(o) >= ti && #[trigger] kept_before(s, ti, o) == m;
                assert(self.store.nodes@[kept_before(s, ti, o)].hash == s.nodes@[o].hash);
                assert(self.blocks@[kept_before(s, ti, o)] == oldb[o]);
                assert(s.hash_of(o) == spec_block_hash(oldb[o]));
            }
            assert(self.wf());
        }
        match selected_tip(&self.store, self.tips.as_slice()) {
            Some(tn) => {
                let chain2 = selected_chain(&self.store, &tn);
                self.main_chain = chain2;
                proof {
                    let fs = self.store;
                    let pt = fs.present_indices(self.tips@);
                    let ib = choose|ib: usize| #[trigger] is_best_of(fs, pt, ib) && fs.hash_of(ib as int) == tn@;
                    lemma_present_bounded(fs, self.tips@);
                    let kb = choose|kb: int| 0 <= kb < pt.len() && pt[kb] == ib;
                    assert(pt[kb] < fs.len());
                    fs.lemma_idx_of_unique(tn@, ib as int);
                    let c = choose|c: Seq<usize>| #[trigger] is_selected_chain(fs, c, fs.idx_of(tn@))
                        && hash_views(chain2@) == hashes_at(fs, c);
                    assert(is_best_of(fs, pt, ib) && is_selected_chain(fs, c, ib as int));
                }
            },
            None => {
                proof {
                    self.store.lemma_present_empty(self.tips@);
                }
            },
        }
    }
}

/// Below the pruning depth nothing is pruned: when the node is archival or
/// the selected tip's blue score is at most `PRUNING_DEPTH`, history pruning
/// leaves the whole state as it was.
pub proof fn law_no_pruning_below_depth(pre: ChainState, post: ChainState)
    requires
        pre.wf(),
        history_pruned(pre, post),
        pre.archival || spec_tip_score(pre.store, pre.tips@) <= PRUNING_DEPTH,
    ensures
        post == pre,
{
    if !pre.archival {
        let p = pre.store.present_indices(pre.tips@);
        if p.len() > 0 {
            assert(best_of(pre.store, p) == (choose|i: usize| is_best_of(pre.store, p, i)));
            assert(pre.store.score(best_of(pre.store, p) as int) <= PRUNING_DEPTH);
        }
        assert(prune_target(pre.store, pre.tips@) is None);
    }
}

/// Every position before `first_above(.., i)` and from `i` on scores at most
/// the threshold.
proof fn lemma_first_above(s: DagStore, c: Seq<usize>, thr: int, i: int)
    requires
        0 <= i <= c.len(),
    ensures
        i <= first_above(s, c, thr, i) <= c.len(),
        forall|j: int| i <= j < first_above(s, c, thr, i) ==> s.score(#[trigger] c[j] as int) <= thr,
    decreases c.len() - i,
{
    if i < c.len() && s.score(c[i] as int) <= thr {
        lemma_first_above(s, c, thr, i + 1);
    }
}

/// A nonempty list of positions has a best element.
proof fn lemma_best_exists(s: DagStore, p: Seq<usize>)
    requires
        p.len() > 0,
    ensures
        exists|i: usize| is_best_of(s, p, i),
    decreases p.len(),
{
    if p.len() == 1 {
        assert(is_best_of(s, p, p[0]));
    } else {
        let q = p.drop_last();
        lemma_best_exists(s, q);
        let b = choose|i: usize| is_best_of(s, q, i);
        let x = p[p.len() - 1];
        if outranks(s, x as int, b as int) {
            assert forall|k: int| 0 <= k < p.len() implies !outranks(s, #[trigger] p[k] as int, x as int) by {
                if k < q.len() {
                    assert(p[k] == q[k]);
                    assert(!outranks(s, q[k] as int, b as int));
                }
            }
            assert(is_best_of(s, p, x));
        } else {
            let kb = choose|k: int| 0 <= k < q.len() && q[k] == b;
            assert(p[kb] == b);
            assert forall|k: int| 0 <= k < p.len() implies !outranks(s, #[trigger] p[k] as int, b as int) by {
                if k < q.len() {
                    assert(p[k] == q[k]);
                    assert(!outranks(s, q[k] as int, b as int));
                }
            }
            assert(is_best_of(s, p, b));
        }
    }
}

/// A stored tip that scores at least `t` stays among the kept tips.
proof fn lemma_tips_kept_has(s: DagStore, t: int, tips: Seq<crate::hash::Hash>, k: int)
    requires
        0 <= k < tips.len(),
        s.has(tips[k]@),
        s.score(s.idx_of(tips[k]@)) >= t,
    ensures
        tips_kept(s, t, tips).contains(tips[k]),
    decreases tips.len(),
{
    let d = tips.drop_last();
    let r = tips_kept(s, t, d);
    if k < tips.len() - 1 {
        assert(d[k] == tips[k]);
        lemma_tips_kept_has(s, t, d, k);
        let j = choose|j: int| 0 <= j < r.len() && r[j] == d[k];
        assert(tips_kept(s, t, tips)[j] == r[j]);
    } else {
        assert(tips.last() == tips[k]);
        assert(tips_kept(s, t, tips) == r.push(tips[k]));
        assert(tips_kept(s, t, tips)[r.len() as int] == tips[k]);
    }
}

/// History pruning never lowers the selected tip's blue score: the selected
/// tip lies far above the pruning point, so it is kept and stays a tip.
pub proof fn law_pruning_keeps_tip_score(pre: ChainState, post: ChainState)
    requires
        pre.wf(),
        post.wf(),
        pre.store.len() <= usize::MAX,
        history_pruned(pre, post),
    ensures
        spec_tip_score(post.store, post.tips@) >= spec_tip_score(pre.store, pre.tips@),
{
    if !pre.archival {
        match prune_target(pre.store, pre.tips@) {
            None => {},
            Some((pp, pos)) => {
                let s = pre.store;
                let t = s.score(pp);
                if kept_before(s, t, s.len()) != s.len() {
                    let tips = pre.tips@;
                    let p = s.present_indices(tips);
                    lemma_present_bounded(s, tips);
                    lemma_best_exists(s, p);
                    let tip = best_of(s, p);
                    let big = s.score(tip as int);
                    let c = chain_to(s, tip);
                    let m = first_above(s, c, big - PRUNING_DEPTH, 0);
                    lemma_first_above(s, c, big - PRUNING_DEPTH, 0);
                    assert(t == s.score(c[m - 1] as int));
                    assert(t <= big - PRUNING_DEPTH);
                    assert(is_best_of(s, p, tip));
                    let kp = choose|k: int| 0 <= k < p.len() && p[k] == tip;
                    assert(p[kp] == tip);
                    lemma_present_from(s, tips);
                    assert(0 <= kp < s.present_indices(tips).len());
                    assert(exists|k: int| 0 <= k < tips.len() && s.has(tips[k]@) && #[trigger] s.present_indices(tips)[kp] == s.idx_of(tips[k]@) as usize);
                    let k = choose|k: int| 0 <= k < tips.len() && s.has(tips[k]@) && #[trigger] p[kp] == s.idx_of(tips[k]@) as usize;
                    let h = tips[k]@;
                    assert(p[kp] < s.len());
                    assert(s.hash_of(s.idx_of(h)) == h);
                    assert(0 <= s.idx_of(h) < s.len());
                    assert(s.idx_of(h) == tip as int);
                    lemma_tips_kept_has(s, t, tips, k);
                    let j = choose|j: int| 0 <= j < post.tips@.len() && post.tips@[j] == tips[k];
                    lemma_kept_mono(s, t, tip as int, s.len() as int);
                    let kb = kept_before(s, t, tip as int);
                    assert(node_remapped(s, t, s.nodes@[tip as int], post.store.nodes@[kb]));
                    assert(post.store.hash_of(kb) == s.hash_of(tip as int));
                    post.store.lemma_idx_of_unique(h, kb);
                    lemma_present_has(post.store, post.tips@, j);
                    let pn = post.store.present_indices(post.tips@);
                    lemma_best_exists(post.store, pn);
                    let cb = choose|i: usize| is_best_of(post.store, pn, i);
                    lemma_best_scores(post.store, pn, cb, kb as usize);
                }
            },
        }
    }
}

} // verus!
