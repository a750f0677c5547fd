//! GHOSTDAG ordering (PHANTOM/GHOSTDAG of Sompolinsky, Wong & Zohar).
//!
//! Blocks live in a [`DagStore`] in insertion order: every parent of a block
//! is stored before it, so "index" is a topological order and ancestry is a
//! well-founded relation over indices. Ancestry is stated directly as the
//! least parent-closed set of indices containing the roots; the executable
//! sweeps below are proved to compute exactly that set.
//!
//! Coloring greedily grows a k-cluster of blue blocks: a mergeset candidate is
//! blue when its anticone within the current blue set has at most `K`
//! members and no blue block in that anticone already has `K` blue blocks in
//! its own anticone.

use vstd::prelude::*;
use vstd::string::StringExecFns;
use crate::bytes::lex_lt;
use crate::pow::{be_value, lemma_lex_lt_is_numeric};
use vstd::relations::{antisymmetric, reflexive, sorted_by, strongly_connected, total_ordering, transitive};

verus! {

/// Maximum allowed blue anticone size (the k-cluster parameter), derived
/// for a 100 ms block cadence and a 2 s delay bound (2·λ·D = 40).
pub const GHOSTDAG_K: u64 = 40;

/// Per-block GHOSTDAG metadata keyed by block hashes.
/// `mergeset_blues[0]` is the selected parent (empty for genesis).
#[derive(Clone, Debug)]
pub struct GhostdagData {
    /// Number of blue blocks strictly in this block's past.
    pub blue_score: u64,
    /// The parent with the highest blue score (ties: larger hash); `None`
    /// only for genesis.
    pub selected_parent: Option<crate::hash::Hash>,
    /// Merged blocks colored blue, in coloring order; `[0]` is the selected parent.
    pub mergeset_blues: Vec<crate::hash::Hash>,
    /// Merged blocks that violated the k-cluster rule.
    pub mergeset_reds: Vec<crate::hash::Hash>,
}

impl GhostdagData {
    /// GHOSTDAG data of the genesis block: no past, no parent, empty mergeset.
    pub fn genesis() -> (r: GhostdagData)
        ensures
            r.blue_score == 0,
            r.selected_parent is None,
            r.mergeset_blues@.len() == 0,
            r.mergeset_reds@.len() == 0,
    {
        GhostdagData { blue_score: 0, selected_parent: None, mergeset_blues: Vec::new(), mergeset_reds: Vec::new() }
    }
}

/// One stored block: its hash, parents and GHOSTDAG data, all by store index.
pub struct DagNode {
    pub hash: crate::hash::Hash,
    pub parents: Vec<usize>,
    pub blue_score: u64,
    pub selected_parent: Option<usize>,
    pub blues: Vec<usize>,
    pub reds: Vec<usize>,
}

/// The block DAG in insertion (topological) order.
pub struct DagStore {
    pub nodes: Vec<DagNode>,
}

impl DagStore {
    pub open spec fn len(&self) -> int {
        self.nodes@.len() as int
    }

    /// Number of parents of block `y`.
    pub open spec fn npar(&self, y: int) -> int {
        self.nodes@[y].parents@.len() as int
    }

    /// The `k`-th parent of block `y`.
    pub open spec fn par(&self, y: int, k: int) -> int {
        self.nodes@[y].parents@[k] as int
    }

    pub open spec fn hash_of(&self, y: int) -> Seq<u8> {
        self.nodes@[y].hash@
    }

    pub open spec fn score(&self, y: int) -> int {
        self.nodes@[y].blue_score as int
    }

    /// Well-formedness: every reference points to an earlier block, and
    /// hashes are distinct.
    pub open spec fn wf(&self) -> bool {
        &&& forall|y: int, k: int| 0 <= y < self.len() && 0 <= k < self.npar(y) ==> #[trigger] self.par(y, k) < y
        &&& forall|y: int| 0 <= y < self.len() ==> match #[trigger] self.nodes@[y].selected_parent {
            Some(j) => j < y,
            None => true,
        }
        &&& forall|y: int, k: int| 0 <= y < self.len() && 0 <= k < self.nodes@[y].blues@.len()
            ==> #[trigger] self.nodes@[y].blues@[k] < y
        &&& forall|y: int, k: int| 0 <= y < self.len() && 0 <= k < self.nodes@[y].reds@.len()
            ==> #[trigger] self.nodes@[y].reds@[k] < y
        &&& forall|a: int, b: int| 0 <= a < self.len() && 0 <= b < self.len() && a != b
            ==> #[trigger] self.hash_of(a) != #[trigger] self.hash_of(b)
    }

    /// Some stored block has hash `h`.
    pub open spec fn has(&self, h: Seq<u8>) -> bool {
        exists|i: int| 0 <= i < self.len() && self.hash_of(i) == h
    }

    /// The position of the stored block with hash `h`.
    pub open spec fn idx_of(&self, h: Seq<u8>) -> int {
        choose|i: int| 0 <= i < self.len() && self.hash_of(i) == h
    }

    /// The positions of the stored hashes among `ps`, in order.
    pub open spec fn present_indices(&self, ps: Seq<crate::hash::Hash>) -> Seq<usize>
        decreases ps.len(),
    {
        if ps.len() == 0 {
            Seq::empty()
        } else {
            let rest = self.present_indices(ps.drop_last());
            if self.has(ps.last()@) {
                rest.push(self.idx_of(ps.last()@) as usize)
            } else {
                rest
            }
        }
    }

    /// In a well-formed store a hash has one position.
    pub proof fn lemma_idx_of_unique(&self, h: Seq<u8>, i: int)
        requires
            self.wf(),
            0 <= i < self.len(),
            self.hash_of(i) == h,
        ensures
            self.has(h),
            self.idx_of(h) == i,
    {
        assert(self.has(h));
        let j = self.idx_of(h);
        if j != i {
            assert(self.hash_of(j) != self.hash_of(i));
        }
    }

    /// No listed hash is stored exactly when none of their positions exist.
    pub proof fn lemma_present_empty(&self, ps: Seq<crate::hash::Hash>)
        ensures
            self.present_indices(ps).len() == 0 <==> forall|k: int| 0 <= k < ps.len() ==> !self.has(#[trigger] ps[k]@),
        decreases ps.len(),
    {
        if ps.len() > 0 {
            self.lemma_present_empty(ps.drop_last());
            if self.present_indices(ps).len() == 0 {
                assert forall|k: int| 0 <= k < ps.len() implies !self.has(#[trigger] ps[k]@) by {
                    if k < ps.len() - 1 {
                        assert(ps.drop_last()[k] == ps[k]);
                    }
                }
            } else {
                if !self.has(ps.last()@) {
                    let k = choose|k: int| 0 <= k < ps.drop_last().len() && self.has(#[trigger] ps.drop_last()[k]@);
                    assert(ps[k] == ps.drop_last()[k]);
                }
            }
        }
    }

    /// `c` is closed under taking parents.
    pub open spec fn closed(&self, c: Set<int>) -> bool {
        forall|y: int, k: int| #![trigger c.contains(y), self.par(y, k)]
            c.contains(y) && 0 <= y < self.len() && 0 <= k < self.npar(y) ==> c.contains(self.par(y, k))
    }

    /// `x` is in the past-inclusive of `roots`: it lies in every
    /// parent-closed set that contains the roots.
    pub open spec fn in_past(&self, roots: Set<int>, x: int) -> bool {
        forall|c: Set<int>| #![trigger self.closed(c)] roots.subset_of(c) && self.closed(c) ==> c.contains(x)
    }

    /// `a` is a (non-strict) ancestor of `b`.
    pub open spec fn is_ancestor(&self, a: int, b: int) -> bool {
        self.in_past(set![b], a)
    }

    /// `a` and `b` are distinct and neither is an ancestor of the other.
    pub open spec fn anticone(&self, a: int, b: int) -> bool {
        a != b && !self.is_ancestor(a, b) && !self.is_ancestor(b, a)
    }
}

/// The store indices named in `v`.
pub open spec fn idx_set(v: Seq<usize>) -> Set<int> {
    Set::new(|x: int| exists|k: int| 0 <= k < v.len() && v[k] as int == x)
}

/// A parent of a block in the past is in the past.
pub proof fn lemma_parent_in_past(s: &DagStore, roots: Set<int>, y: int, k: int)
    requires
        s.in_past(roots, y),
        0 <= y < s.len(),
        0 <= k < s.npar(y),
    ensures
        s.in_past(roots, s.par(y, k)),
{
    assert forall|c: Set<int>| #![trigger s.closed(c)] roots.subset_of(c) && s.closed(c) implies c.contains(s.par(y, k)) by {
        assert(c.contains(y));
    }
}

/// Roots are in their own past.
pub proof fn lemma_root_in_past(s: &DagStore, roots: Set<int>, x: int)
    requires
        roots.contains(x),
    ensures
        s.in_past(roots, x),
{
    assert forall|c: Set<int>| #![trigger s.closed(c)] roots.subset_of(c) && s.closed(c) implies c.contains(x) by {}
}

/// Past of a single block only holds earlier (or equal) indices.
pub proof fn lemma_past_below(s: &DagStore, b: int, x: int)
    requires
        s.wf(),
        0 <= b < s.len(),
        s.is_ancestor(x, b),
    ensures
        0 <= x <= b,
{
    let c = Set::new(|y: int| 0 <= y <= b);
    assert(s.closed(c));
    assert(set![b].subset_of(c));
}

/// Unfolding: `c` is in the past of `x` exactly when `c == x` or `c` is in
/// the past of one of `x`'s parents.
pub proof fn lemma_past_unfold(s: &DagStore, x: int, c: int)
    requires
        s.wf(),
        0 <= x < s.len(),
    ensures
        s.is_ancestor(c, x) <==> (c == x || exists|k: int| 0 <= k < s.npar(x) && #[trigger] s.is_ancestor(c, s.par(x, k))),
{
    if c == x {
        lemma_root_in_past(s, set![x], x);
    } else if exists|k: int| 0 <= k < s.npar(x) && #[trigger] s.is_ancestor(c, s.par(x, k)) {
        let k = choose|k: int| 0 <= k < s.npar(x) && #[trigger] s.is_ancestor(c, s.par(x, k));
        let p = s.par(x, k);
        assert forall|cs: Set<int>| #![trigger s.closed(cs)] set![x].subset_of(cs) && s.closed(cs) implies cs.contains(c) by {
            assert(cs.contains(x));
            assert(cs.contains(p));
            assert(set![p].subset_of(cs));
        }
    } else {
        let u = Set::new(|y: int| y == x || exists|k: int| 0 <= k < s.npar(x) && #[trigger] s.is_ancestor(y, s.par(x, k)));
        assert forall|y: int, k: int| #![trigger u.contains(y), s.par(y, k)]
            u.contains(y) && 0 <= y < s.len() && 0 <= k < s.npar(y) implies u.contains(s.par(y, k)) by {
            if y == x {
                lemma_root_in_past(s, set![s.par(x, k)], s.par(x, k));
                assert(s.is_ancestor(s.par(x, k), s.par(x, k)));
            } else {
                let k2 = choose|k2: int| 0 <= k2 < s.npar(x) && #[trigger] s.is_ancestor(y, s.par(x, k2));
                lemma_parent_in_past(s, set![s.par(x, k2)], y, k);
                assert(s.is_ancestor(s.par(y, k), s.par(x, k2)));
            }
        }
        assert(s.closed(u));
        assert(set![x].subset_of(u));
        assert(!u.contains(c));
    }
}

/// Indicator of the past-inclusive of the blocks listed in `roots`.
pub fn past_marks(s: &DagStore, roots: &Vec<usize>) -> (m: Vec<bool>)
    requires
        s.wf(),
        forall|k: int| 0 <= k < roots@.len() ==> (#[trigger] roots@[k]) < s.len(),
    ensures
        m@.len() == s.len(),
        forall|x: int| 0 <= x < s.len() ==> m@[x] == s.in_past(idx_set(roots@), x),
{
    let n = s.nodes.len();
    let ghost r = idx_set(roots@);
    let mut m: Vec<bool> = Vec::new();
    let mut i: usize = 0;
    while i < n
        invariant
            i <= n,
            n == s.len(),
            m@.len() == i,
            forall|x: int| 0 <= x < i ==> !m@[x],
        decreases n - i,
    {
        m.push(false);
        i = i + 1;
    }
    let mut k: usize = 0;
    while k < roots.len()
        invariant
            k <= roots@.len(),
            n == s.len(),
            s.wf(),
            r == idx_set(roots@),
            forall|q: int| 0 <= q < roots@.len() ==> (#[trigger] roots@[q]) < s.len(),
            m@.len() == n,
            forall|x: int| 0 <= x < n && m@[x] ==> s.in_past(r, x),
            forall|q: int| 0 <= q < k ==> m@[#[trigger] roots@[q] as int],
        decreases roots@.len() - k,
    {
        let x = roots[k];
        proof {
            assert(r.contains(x as int));
            lemma_root_in_past(s, r, x as int);
        }
        m.set(x, true);
        k = k + 1;
    }
    let mut j: usize = n;
    while j > 0
        invariant
            j <= n,
            n == s.len(),
            s.wf(),
            r == idx_set(roots@),
            m@.len() == n,
            forall|q: int| 0 <= q < roots@.len() ==> (#[trigger] roots@[q]) < s.len(),
            forall|x: int| 0 <= x < n && m@[x] ==> s.in_past(r, x),
            forall|q: int| 0 <= q < roots@.len() ==> m@[#[trigger] roots@[q] as int],
            forall|y: int, q: int| j <= y < n && m@[y] && 0 <= q < s.npar(y) ==> m@[#[trigger] s.par(y, q)],
        decreases j,
    {
        let cur = j - 1;
        if m[cur] {
            let node = &s.nodes[cur];
            let mut q: usize = 0;
            while q < node.parents.len()
                invariant
                    q <= node.parents@.len(),
                    *node == s.nodes@[cur as int],
                    cur < n,
                    n == s.len(),
                    s.wf(),
                    r == idx_set(roots@),
                    m@.len() == n,
                    m@[cur as int],
                    s.in_past(r, cur as int),
                    forall|t: int| 0 <= t < roots@.len() ==> (#[trigger] roots@[t]) < s.len(),
                    forall|x: int| 0 <= x < n && m@[x] ==> s.in_past(r, x),
                    forall|t: int| 0 <= t < roots@.len() ==> m@[#[trigger] roots@[t] as int],
                    forall|y: int, t: int| j <= y < n && m@[y] && 0 <= t < s.npar(y) ==> m@[#[trigger] s.par(y, t)],
                    forall|t: int| 0 <= t < q ==> m@[#[trigger] s.par(cur as int, t)],
                decreases node.parents@.len() - q,
            {
                let p = node.parents[q];
                proof {
                    assert(s.par(cur as int, q as int) == p);
                    assert(p < cur);
                    lemma_parent_in_past(s, r, cur as int, q as int);
                }
                m.set(p, true);
                q = q + 1;
            }
        }
        j = cur;
    }
    proof {
        let mm = Set::new(|x: int| 0 <= x < n && m@[x]);
        assert forall|y: int, q: int| #![trigger mm.contains(y), s.par(y, q)]
            mm.contains(y) && 0 <= y < s.len() && 0 <= q < s.npar(y) implies mm.contains(s.par(y, q)) by {
            assert(m@[s.par(y, q)]);
            assert(s.par(y, q) < y);
        }
        assert(s.closed(mm));
        assert forall|x: int| r.contains(x) implies mm.contains(x) by {
            let q = choose|q: int| 0 <= q < roots@.len() && roots@[q] as int == x;
            assert(m@[roots@[q] as int]);
        }
        assert(r.subset_of(mm));
        assert forall|x: int| 0 <= x < s.len() implies m@[x] == s.in_past(r, x) by {
            if s.in_past(r, x) {
                assert(mm.contains(x));
            }
        }
    }
    m
}

/// Indicator of the blocks that have `c` in their past-inclusive.
pub fn desc_marks(s: &DagStore, c: usize) -> (d: Vec<bool>)
    requires
        s.wf(),
        c < s.len(),
    ensures
        d@.len() == s.len(),
        forall|x: int| 0 <= x < s.len() ==> d@[x] == s.is_ancestor(c as int, x),
{
    let n = s.nodes.len();
    let mut d: Vec<bool> = Vec::new();
    let mut x: usize = 0;
    while x < n
        invariant
            x <= n,
            n == s.len(),
            s.wf(),
            c < n,
            d@.len() == x,
            forall|y: int| 0 <= y < x ==> d@[y] == s.is_ancestor(c as int, y),
        decreases n - x,
    {
        let mut hit = x == c;
        if x > c {
            let node = &s.nodes[x];
            let mut q: usize = 0;
            while q < node.parents.len()
                invariant
                    q <= node.parents@.len(),
                    *node == s.nodes@[x as int],
                    x < n,
                    n == s.len(),
                    s.wf(),
                    d@.len() == x,
                    forall|y: int| 0 <= y < x ==> d@[y] == s.is_ancestor(c as int, y),
                    hit == exists|t: int| 0 <= t < q && #[trigger] s.is_ancestor(c as int, s.par(x as int, t)),
                decreases node.parents@.len() - q,
            {
                let p = node.parents[q];
                proof {
                    assert(s.par(x as int, q as int) == p);
                    assert(p < x);
                }
                if d[p] {
                    hit = true;
                }
                q = q + 1;
            }
            proof {
                lemma_past_unfold(s, x as int, c as int);
            }
        } else {
            proof {
                if x < c && s.is_ancestor(c as int, x as int) {
                    lemma_past_below(s, x as int, c as int);
                }
                if x == c {
                    lemma_root_in_past(s, set![x as int], x as int);
                }
            }
        }
        d.push(hit);
        x = x + 1;
    }
    d
}


/// The stored positions of the listed hashes that are present, in order.
pub fn present_parent_indices(s: &DagStore, parents: &[crate::hash::Hash]) -> (r: Vec<usize>)
    requires
        s.wf(),
    ensures
        r@ == s.present_indices(parents@),
        forall|k: int| 0 <= k < r@.len() ==> (#[trigger] r@[k]) < s.len(),
{
    let mut out: Vec<usize> = Vec::new();
    let mut k: usize = 0;
    while k < parents.len()
        invariant
            k <= parents@.len(),
            s.wf(),
            out@ == s.present_indices(parents@.take(k as int)),
            forall|t: int| 0 <= t < out@.len() ==> (#[trigger] out@[t]) < s.len(),
        decreases parents@.len() - k,
    {
        proof {
            assert(parents@.take(k + 1).drop_last() =~= parents@.take(k as int));
            assert(parents@.take(k + 1).last() == parents@[k as int]);
        }
        match index_of(s, &parents[k]) {
            Some(i) => {
                proof {
                    s.lemma_idx_of_unique(parents@[k as int]@, i as int);
                }
                out.push(i);
            },
            None => {},
        }
        k = k + 1;
    }
    proof {
        assert(parents@.take(parents@.len() as int) =~= parents@);
    }
    out
}

/// Block `a` outranks block `b` for parent selection: higher blue score,
/// ties broken by the larger hash.
pub open spec fn outranks(s: DagStore, a: int, b: int) -> bool {
    s.score(a) > s.score(b) || (s.score(a) == s.score(b) && be_value(s.hash_of(a)) > be_value(s.hash_of(b)))
}

/// `sp` is the best of the parents `p` (by index).
pub open spec fn is_best_of(s: DagStore, p: Seq<usize>, sp: usize) -> bool {
    &&& exists|k: int| 0 <= k < p.len() && p[k] == sp
    &&& forall|k: int| 0 <= k < p.len() ==> !outranks(s, p[k] as int, sp as int)
}

/// Position of the block with hash `h`, if stored.
pub fn index_of(s: &DagStore, h: &crate::hash::Hash) -> (r: Option<usize>)
    ensures
        match r {
            Some(i) => i < s.len() && s.hash_of(i as int) == h@,
            None => forall|i: int| 0 <= i < s.len() ==> s.hash_of(i) != h@,
        },
{
    let mut i: usize = 0;
    while i < s.nodes.len()
        invariant
            i <= s.len(),
            forall|j: int| 0 <= j < i ==> s.hash_of(j) != h@,
        decreases s.len() - i,
    {
        if s.nodes[i].hash.equals(h) {
            return Some(i);
        }
        i = i + 1;
    }
    None
}

/// Whether `a` outranks `b` (blue score, then hash).
fn outranks_exec(s: &DagStore, a: usize, b: usize) -> (r: bool)
    requires
        a < s.len(),
        b < s.len(),
    ensures
        r == outranks(*s, a as int, b as int),
{
    let na = &s.nodes[a];
    let nb = &s.nodes[b];
    proof {
        lemma_lex_lt_is_numeric(nb.hash@, na.hash@);
    }
    na.blue_score > nb.blue_score || (na.blue_score == nb.blue_score && nb.hash.less_than(&na.hash))
}

/// The best of a nonempty list of stored parents.
pub fn select_parent_idx(s: &DagStore, p: &Vec<usize>) -> (r: usize)
    requires
        p@.len() > 0,
        forall|k: int| 0 <= k < p@.len() ==> (#[trigger] p@[k]) < s.len(),
    ensures
        is_best_of(*s, p@, r),
{
    let mut best = p[0];
    let mut k: usize = 1;
    while k < p.len()
        invariant
            1 <= k <= p@.len(),
            forall|t: int| 0 <= t < p@.len() ==> (#[trigger] p@[t]) < s.len(),
            exists|t: int| 0 <= t < k && p@[t] == best,
            forall|t: int| 0 <= t < k ==> !outranks(*s, #[trigger] p@[t] as int, best as int),
        decreases p@.len() - k,
    {
        let c = p[k];
        if outranks_exec(s, c, best) {
            proof {
                assert forall|t: int| 0 <= t < k + 1 implies !outranks(*s, #[trigger] p@[t] as int, c as int) by {
                    if t < k {
                        assert(!outranks(*s, p@[t] as int, best as int));
                    }
                }
            }
            best = c;
        }
        k = k + 1;
    }
    best
}

/// Pick the selected parent: the stored parent with the highest blue score,
/// ties broken by the larger hash; `None` when no parent is stored.
pub fn select_parent(s: &DagStore, parents: &[crate::hash::Hash]) -> (r: Option<crate::hash::Hash>)
    requires
        s.wf(),
    ensures
        r is None <==> forall|k: int| 0 <= k < parents@.len() ==> !s.has(parents@[k]@),
        r matches Some(h) ==> exists|i: usize| #[trigger] is_best_of(*s, s.present_indices(parents@), i)
            && s.hash_of(i as int) == h@,
{
    let idx = present_parent_indices(s, parents);
    proof {
        s.lemma_present_empty(parents@);
    }
    if idx.len() == 0 {
        return None;
    }
    let b = select_parent_idx(s, &idx);
    Some(s.nodes[b].hash)
}


/// `x` is merged by a block with parents `p` and selected parent `sp`: it is
/// in the past of some parent but not in the past-inclusive of `sp`.
pub open spec fn in_mergeset(s: DagStore, p: Seq<usize>, sp: int, x: int) -> bool {
    s.in_past(idx_set(p), x) && !s.is_ancestor(x, sp)
}

/// The merged blocks among positions `0..i`, ascending.
pub open spec fn mergeset_upto(s: DagStore, p: Seq<usize>, sp: int, i: int) -> Seq<usize>
    decreases i,
{
    if i <= 0 {
        Seq::empty()
    } else {
        let r = mergeset_upto(s, p, sp, i - 1);
        if in_mergeset(s, p, sp, i - 1) {
            r.push((i - 1) as usize)
        } else {
            r
        }
    }
}

/// The mergeset in store order.
pub open spec fn mergeset_of(s: DagStore, p: Seq<usize>, sp: int) -> Seq<usize> {
    mergeset_upto(s, p, sp, s.len())
}

/// The mergeset prefix is strictly increasing and below `i`.
pub proof fn lemma_mergeset_upto_sorted(s: DagStore, p: Seq<usize>, sp: int, i: int)
    requires
        0 <= i <= usize::MAX,
    ensures
        mergeset_upto(s, p, sp, i).len() <= i,
        forall|a: int, b: int| 0 <= a < b < mergeset_upto(s, p, sp, i).len()
            ==> (#[trigger] mergeset_upto(s, p, sp, i)[a]) < (#[trigger] mergeset_upto(s, p, sp, i)[b]),
        forall|a: int| 0 <= a < mergeset_upto(s, p, sp, i).len() ==> (#[trigger] mergeset_upto(s, p, sp, i)[a]) < i,
        forall|a: int| 0 <= a < mergeset_upto(s, p, sp, i).len()
            ==> in_mergeset(s, p, sp, #[trigger] mergeset_upto(s, p, sp, i)[a] as int),
        forall|x: int| 0 <= x < i && in_mergeset(s, p, sp, x) ==> mergeset_upto(s, p, sp, i).contains(x as usize),
    decreases i,
{
    if i > 0 {
        lemma_mergeset_upto_sorted(s, p, sp, i - 1);
        let r = mergeset_upto(s, p, sp, i - 1);
        let m = mergeset_upto(s, p, sp, i);
        if in_mergeset(s, p, sp, i - 1) {
            let v = (i - 1) as usize;
            assert(m == r.push(v));
            assert(m[r.len() as int] == v);
            assert forall|a: int| 0 <= a < r.len() implies m[a] == r[a] by {}
            assert forall|a: int, b: int| 0 <= a < b < m.len() implies (#[trigger] m[a]) < (#[trigger] m[b]) by {
                assert(m[a] == r[a]);
                if b < r.len() {
                    assert(m[b] == r[b]);
                    assert(r[a] < r[b]);
                } else {
                    assert(m[b] == v);
                    assert(r[a] < i - 1);
                }
            }
            assert forall|a: int| 0 <= a < m.len() implies in_mergeset(s, p, sp, #[trigger] m[a] as int) by {
                if a < r.len() {
                    assert(m[a] == r[a]);
                    assert(in_mergeset(s, p, sp, r[a] as int));
                } else {
                    assert(m[a] == v);
                }
            }
            assert forall|x: int| 0 <= x < i && in_mergeset(s, p, sp, x) implies m.contains(x as usize) by {
                if x < i - 1 {
                    let a = choose|a: int| 0 <= a < r.len() && r[a] == x as usize;
                    assert(m[a] == x as usize);
                } else {
                    assert(m[r.len() as int] == x as usize);
                }
            }
        } else {
            assert(m == r);
        }
    }
}

/// The indices named by a one-element list.
pub proof fn lemma_idx_set_single(v: Seq<usize>, a: usize)
    requires
        v == seq![a],
    ensures
        idx_set(v) == set![a as int],
{
    assert forall|x: int| idx_set(v).contains(x) <==> set![a as int].contains(x) by {
        if x == a as int {
            assert(v[0] as int == x);
        }
    }
    assert(idx_set(v) =~= set![a as int]);
}

/// The blocks merged by a block with parents `p` and selected parent `sp`.
fn mergeset_exec(s: &DagStore, p: &Vec<usize>, sp: usize) -> (ms: Vec<usize>)
    requires
        s.wf(),
        forall|k: int| 0 <= k < p@.len() ==> (#[trigger] p@[k]) < s.len(),
        sp < s.len(),
    ensures
        ms@ == mergeset_of(*s, p@, sp as int),
{
    let pm = past_marks(s, p);
    let mut spv: Vec<usize> = Vec::new();
    spv.push(sp);
    let sm = past_marks(s, &spv);
    proof {
        assert(spv@ =~= seq![sp]);
        lemma_idx_set_single(spv@, sp);
    }
    let mut ms: Vec<usize> = Vec::new();
    let mut i: usize = 0;
    while i < s.nodes.len()
        invariant
            i <= s.len(),
            pm@.len() == s.len(),
            sm@.len() == s.len(),
            forall|x: int| 0 <= x < s.len() ==> pm@[x] == s.in_past(idx_set(p@), x),
            forall|x: int| 0 <= x < s.len() ==> sm@[x] == s.is_ancestor(x, sp as int),
            ms@ == mergeset_upto(*s, p@, sp as int, i as int),
        decreases s.len() - i,
    {
        if pm[i] && !sm[i] {
            ms.push(i);
        }
        i = i + 1;
    }
    ms
}

/// Number of other members of `ms` (among the first `upto`) that are
/// ancestors of `x`.
pub open spec fn anc_count(s: DagStore, ms: Seq<usize>, x: int, upto: int) -> nat
    decreases upto,
{
    if upto <= 0 {
        0
    } else {
        anc_count(s, ms, x, upto - 1) + if ms[upto - 1] as int != x && s.is_ancestor(ms[upto - 1] as int, x) {
            1nat
        } else {
            0nat
        }
    }
}

/// The topological rank of `x` within the mergeset: how many other merged
/// blocks are its ancestors.
pub open spec fn rank_of(s: DagStore, ms: Seq<usize>, x: int) -> nat {
    anc_count(s, ms, x, ms.len() as int)
}

/// Ranks of every member of `ms`.
fn ranks_exec(s: &DagStore, ms: &Vec<usize>) -> (r: Vec<usize>)
    requires
        s.wf(),
        forall|k: int| 0 <= k < ms@.len() ==> (#[trigger] ms@[k]) < s.len(),
    ensures
        r@.len() == ms@.len(),
        forall|t: int| 0 <= t < ms@.len() ==> r@[t] as nat == rank_of(*s, ms@, #[trigger] ms@[t] as int),
{
    let mut r: Vec<usize> = Vec::new();
    let mut t: usize = 0;
    while t < ms.len()
        invariant
            t <= ms@.len(),
            s.wf(),
            forall|k: int| 0 <= k < ms@.len() ==> (#[trigger] ms@[k]) < s.len(),
            r@.len() == t,
            forall|q: int| 0 <= q < t ==> r@[q] as nat == rank_of(*s, ms@, #[trigger] ms@[q] as int),
        decreases ms@.len() - t,
    {
        let x = ms[t];
        let mut xv: Vec<usize> = Vec::new();
        xv.push(x);
        let am = past_marks(s, &xv);
        proof {
            assert(xv@ =~= seq![x]);
            lemma_idx_set_single(xv@, x);
        }
        let mut c: usize = 0;
        let mut u: usize = 0;
        while u < ms.len()
            invariant
                u <= ms@.len(),
                c <= u,
                x < s.len(),
                am@.len() == s.len(),
                forall|k: int| 0 <= k < ms@.len() ==> (#[trigger] ms@[k]) < s.len(),
                forall|y: int| 0 <= y < s.len() ==> am@[y] == s.is_ancestor(y, x as int),
                c as nat == anc_count(*s, ms@, x as int, u as int),
            decreases ms@.len() - u,
        {
            let y = ms[u];
            if y != x && am[y] {
                c = c + 1;
            }
            u = u + 1;
        }
        r.push(c);
        t = t + 1;
    }
    r
}


/// Lexicographic order on (rank, hash value, index).
pub open spec fn key_le(ra: nat, ha: nat, a: usize, rb: nat, hb: nat, b: usize) -> bool {
    ra < rb || (ra == rb && (ha < hb || (ha == hb && a <= b)))
}

/// Topological order of a mergeset: by rank, then by hash.
pub open spec fn topo_le(s: DagStore, ms: Seq<usize>, a: usize, b: usize) -> bool {
    key_le(rank_of(s, ms, a as int), be_value(s.hash_of(a as int)), a, rank_of(s, ms, b as int),
        be_value(s.hash_of(b as int)), b)
}

/// The ordering relation of [`topo_le`] as a spec closure.
pub open spec fn topo_leq(s: DagStore, ms: Seq<usize>) -> spec_fn(usize, usize) -> bool {
    |a: usize, b: usize| topo_le(s, ms, a, b)
}

/// The mergeset in GHOSTDAG processing order.
pub open spec fn topo_order(s: DagStore, ms: Seq<usize>) -> Seq<usize> {
    ms.sort_by(topo_leq(s, ms))
}

/// The topological key order is a total order.
pub proof fn lemma_topo_total(s: DagStore, ms: Seq<usize>)
    ensures
        total_ordering(topo_leq(s, ms)),
{
    let f = topo_leq(s, ms);
    assert(reflexive(f));
    assert(antisymmetric(f));
    assert(transitive(f));
    assert(strongly_connected(f));
}

/// Inserting between a lower prefix and a higher suffix keeps a sequence sorted.
proof fn lemma_insert_sorted(a: Seq<usize>, p: int, x: usize, leq: spec_fn(usize, usize) -> bool)
    requires
        sorted_by(a, leq),
        0 <= p <= a.len(),
        forall|q: int| 0 <= q < p ==> #[trigger] leq(a[q], x),
        forall|q: int| p <= q < a.len() ==> #[trigger] leq(x, a[q]),
    ensures
        sorted_by(a.insert(p, x), leq),
{
    a.insert_ensures(p, x);
    let b = a.insert(p, x);
    assert forall|i: int, j: int| 0 <= i < j < b.len() implies #[trigger] leq(b[i], b[j]) by {
        if j < p {
            assert(b[i] == a[i] && b[j] == a[j]);
        } else if j == p {
            assert(b[i] == a[i]);
        } else if i < p {
            assert(b[i] == a[i] && b[j] == a[j - 1]);
        } else if i == p {
            assert(b[j] == a[j - 1]);
        } else {
            assert(b[i] == a[i - 1] && b[j] == a[j - 1]);
        }
    }
}

/// Inserting between a lower prefix and a higher suffix keeps a fee list sorted.
pub proof fn lemma_insert_sorted_u128(a: Seq<u128>, p: int, x: u128, leq: spec_fn(u128, u128) -> bool)
    requires
        sorted_by(a, leq),
        0 <= p <= a.len(),
        forall|q: int| 0 <= q < p ==> #[trigger] leq(a[q], x),
        forall|q: int| p <= q < a.len() ==> #[trigger] leq(x, a[q]),
    ensures
        sorted_by(a.insert(p, x), leq),
{
    a.insert_ensures(p, x);
    let b = a.insert(p, x);
    assert forall|i: int, j: int| 0 <= i < j < b.len() implies #[trigger] leq(b[i], b[j]) by {
        if j < p {
            assert(b[i] == a[i] && b[j] == a[j]);
        } else if j == p {
            assert(b[i] == a[i]);
        } else if i < p {
            assert(b[i] == a[i] && b[j] == a[j - 1]);
        } else if i == p {
            assert(b[j] == a[j - 1]);
        } else {
            assert(b[i] == a[i - 1] && b[j] == a[j - 1]);
        }
    }
}

/// `key_le` on concrete ranks and hashes.
fn key_le_exec(s: &DagStore, ra: usize, a: usize, rb: usize, b: usize) -> (r: bool)
    requires
        a < s.len(),
        b < s.len(),
    ensures
        r == key_le(ra as nat, be_value(s.hash_of(a as int)), a, rb as nat, be_value(s.hash_of(b as int)), b),
{
    if ra != rb {
        return ra < rb;
    }
    let ha = &s.nodes[a].hash;
    let hb = &s.nodes[b].hash;
    proof {
        lemma_lex_lt_is_numeric(ha@, hb@);
        lemma_lex_lt_is_numeric(hb@, ha@);
    }
    if ha.less_than(hb) {
        true
    } else if hb.less_than(ha) {
        false
    } else {
        a <= b
    }
}

/// Sort a mergeset into GHOSTDAG processing order.
fn topo_sort(s: &DagStore, ms: &Vec<usize>, ranks: &Vec<usize>) -> (out: Vec<usize>)
    requires
        forall|k: int| 0 <= k < ms@.len() ==> (#[trigger] ms@[k]) < s.len(),
        ranks@.len() == ms@.len(),
        forall|t: int| 0 <= t < ms@.len() ==> ranks@[t] as nat == rank_of(*s, ms@, #[trigger] ms@[t] as int),
    ensures
        out@ == topo_order(*s, ms@),
{
    let ghost leq = topo_leq(*s, ms@);
    proof {
        lemma_topo_total(*s, ms@);
    }
    let mut out: Vec<usize> = Vec::new();
    let mut out_r: Vec<usize> = Vec::new();
    let mut i: usize = 0;
    proof {
        assert(out@ =~= ms@.take(0));
    }
    while i < ms.len()
        invariant
            i <= ms@.len(),
            leq == topo_leq(*s, ms@),
            total_ordering(leq),
            forall|k: int| 0 <= k < ms@.len() ==> (#[trigger] ms@[k]) < s.len(),
            ranks@.len() == ms@.len(),
            forall|t: int| 0 <= t < ms@.len() ==> ranks@[t] as nat == rank_of(*s, ms@, #[trigger] ms@[t] as int),
            out@.len() == out_r@.len(),
            forall|q: int| 0 <= q < out@.len() ==> (#[trigger] out@[q]) < s.len(),
            forall|q: int| 0 <= q < out@.len() ==> out_r@[q] as nat == rank_of(*s, ms@, #[trigger] out@[q] as int),
            sorted_by(out@, leq),
            out@.to_multiset() == ms@.take(i as int).to_multiset(),
        decreases ms@.len() - i,
    {
        let x = ms[i];
        let rx = ranks[i];
        let mut p: usize = 0;
        while p < out.len() && key_le_exec(s, out_r[p], out[p], rx, x)
            invariant
                p <= out@.len(),
                x < s.len(),
                rx as nat == rank_of(*s, ms@, x as int),
                leq == topo_leq(*s, ms@),
                out@.len() == out_r@.len(),
                forall|q: int| 0 <= q < out@.len() ==> (#[trigger] out@[q]) < s.len(),
                forall|q: int| 0 <= q < out@.len() ==> out_r@[q] as nat == rank_of(*s, ms@, #[trigger] out@[q] as int),
                forall|q: int| 0 <= q < p ==> #[trigger] leq(out@[q], x),
            decreases out@.len() - p,
        {
            p = p + 1;
        }
        proof {
            if p < out@.len() {
                assert(!leq(out@[p as int], x));
                assert(leq(x, out@[p as int]));
                assert forall|q: int| p <= q < out@.len() implies #[trigger] leq(x, out@[q]) by {
                    if q > p {
                        assert(leq(out@[p as int], out@[q]));
                    }
                }
            }
            lemma_insert_sorted(out@, p as int, x, leq);
            vstd::seq_lib::to_multiset_insert(out@, p as int, x);
            assert(ms@.take(i + 1) =~= ms@.take(i as int).push(x));
            vstd::seq_lib::to_multiset_build(ms@.take(i as int), x);
            out@.insert_ensures(p as int, x);
            out_r@.insert_ensures(p as int, rx);
        }
        out.insert(p, x);
        out_r.insert(p, rx);
        i = i + 1;
    }
    proof {
        assert(ms@.take(ms@.len() as int) =~= ms@);
        ms@.lemma_sort_by_ensures(leq);
        vstd::seq_lib::lemma_sorted_unique(out@, ms@.sort_by(leq), leq);
    }
    out
}


/// `x` was colored blue by block `i` or by a block on its selected-parent chain.
pub open spec fn chain_blue(s: DagStore, i: int, x: int) -> bool
    decreases i,
{
    if 0 <= i < s.len() {
        (exists|k: int| 0 <= k < s.nodes@[i].blues@.len() && #[trigger] s.nodes@[i].blues@[k] as int == x)
            || match s.nodes@[i].selected_parent {
            Some(j) => if 0 <= (j as int) < i {
                chain_blue(s, j as int, x)
            } else {
                false
            },
            None => false,
        }
    } else {
        false
    }
}

/// `c` with the first `k` positions listed in `bl` set.
pub open spec fn mark_upto(c: Seq<bool>, bl: Seq<usize>, k: int) -> Seq<bool>
    decreases k,
{
    if k <= 0 {
        c
    } else {
        mark_upto(c, bl, k - 1).update(bl[k - 1] as int, true)
    }
}

proof fn lemma_mark_upto(c: Seq<bool>, bl: Seq<usize>, k: int)
    requires
        0 <= k <= bl.len(),
        forall|t: int| 0 <= t < bl.len() ==> (#[trigger] bl[t]) < c.len(),
    ensures
        mark_upto(c, bl, k).len() == c.len(),
        forall|x: int| 0 <= x < c.len() ==> (#[trigger] mark_upto(c, bl, k)[x] <==> (c[x]
            || exists|t: int| 0 <= t < k && #[trigger] bl[t] as int == x)),
    decreases k,
{
    if k > 0 {
        lemma_mark_upto(c, bl, k - 1);
        assert forall|x: int| 0 <= x < c.len() implies (#[trigger] mark_upto(c, bl, k)[x] <==> (c[x]
            || exists|t: int| 0 <= t < k && #[trigger] bl[t] as int == x)) by {
            if x == bl[k - 1] as int {
                assert(bl[k - 1] as int == x);
            } else {
                if exists|t: int| 0 <= t < k && #[trigger] bl[t] as int == x {
                    let t = choose|t: int| 0 <= t < k && #[trigger] bl[t] as int == x;
                    assert(t < k - 1);
                }
            }
        }
    }
}

/// `x` is among the first `k` blues of `node`.
pub open spec fn own_blue(node: DagNode, k: int, x: int) -> bool {
    exists|t: int| 0 <= t < k && #[trigger] node.blues@[t] as int == x
}

/// The blue set seen from `sp`: `sp` itself and every block colored blue
/// along its selected-parent chain, as an indicator over store positions.
pub open spec fn mat_init(s: DagStore, sp: int) -> Seq<bool> {
    Seq::new(s.len() as nat, |x: int| x == sp || chain_blue(s, sp, x))
}

/// Indicator of the blue set seen from `sp`.
fn materialize(s: &DagStore, sp: usize) -> (cur: Vec<bool>)
    requires
        s.wf(),
        sp < s.len(),
    ensures
        cur@ == mat_init(*s, sp as int),
{
    let n = s.nodes.len();
    let mut cur: Vec<bool> = Vec::new();
    let mut i: usize = 0;
    while i < n
        invariant
            i <= n,
            n == s.len(),
            cur@.len() == i,
            forall|x: int| 0 <= x < i ==> !cur@[x],
        decreases n - i,
    {
        cur.push(false);
        i = i + 1;
    }
    cur.set(sp, true);
    let mut cursor: Option<usize> = Some(sp);
    while cursor.is_some()
        invariant
            n == s.len(),
            s.wf(),
            sp < n,
            cur@.len() == n,
            cursor matches Some(c) ==> c < n,
            forall|x: int| 0 <= x < n ==> ((x == sp || chain_blue(*s, sp as int, x)) <==> (cur@[x] || (cursor matches Some(c)
                && chain_blue(*s, c as int, x)))),
        decreases match cursor {
            Some(c) => c + 1,
            None => 0,
        },
    {
        let c = cursor.unwrap();
        let node = &s.nodes[c];
        let ghost before = cur@;
        proof {
            assert(forall|x: int| 0 <= x < n ==> ((x == sp || chain_blue(*s, sp as int, x)) <==> (before[x]
                || chain_blue(*s, c as int, x))));
        }
        let mut k: usize = 0;
        while k < node.blues.len()
            invariant
                k <= node.blues@.len(),
                before.len() == n,
                *node == s.nodes@[c as int],
                c < n,
                n == s.len(),
                s.wf(),
                cur@ == mark_upto(before, node.blues@, k as int),
            decreases node.blues@.len() - k,
        {
            let b = node.blues[k];
            proof {
                assert(b < c);
                lemma_mark_upto(before, node.blues@, k as int);
            }
            cur.set(b, true);
            k = k + 1;
        }
        proof {
            lemma_mark_upto(before, node.blues@, node.blues@.len() as int);
            assert forall|x: int| 0 <= x < n implies (cur@[x] <==> (before[x] || own_blue(*node, node.blues@.len() as int, x))) by {}
        }
        let next = match node.selected_parent {
            Some(j) => if j < c {
                Some(j)
            } else {
                None
            },
            None => None,
        };
        proof {
            assert forall|x: int| 0 <= x < n implies ((x == sp || chain_blue(*s, sp as int, x)) <==> (cur@[x] || (next matches Some(c2)
                && chain_blue(*s, c2 as int, x)))) by {
                assert((x == sp || chain_blue(*s, sp as int, x)) <==> (before[x] || chain_blue(*s, c as int, x)));
                assert(cur@[x] <==> (before[x] || own_blue(*node, node.blues@.len() as int, x)));
                assert(chain_blue(*s, c as int, x) == ((exists|t: int| 0 <= t < s.nodes@[c as int].blues@.len()
                    && #[trigger] s.nodes@[c as int].blues@[t] as int == x) || match s.nodes@[c as int].selected_parent {
                    Some(j) => if 0 <= (j as int) < c {
                        chain_blue(*s, j as int, x)
                    } else {
                        false
                    },
                    None => false,
                }));
            }
        }
        cursor = next;
    }
    proof {
        assert(cur@ =~= mat_init(*s, sp as int));
    }
    cur
}

/// Number of blocks marked in `cur` among positions `0..upto` that lie in
/// the anticone of `x`.
pub open spec fn anti_count(s: DagStore, cur: Seq<bool>, x: int, upto: int) -> nat
    decreases upto,
{
    if upto <= 0 {
        0
    } else {
        anti_count(s, cur, x, upto - 1) + if cur[upto - 1] && s.anticone(upto - 1, x) {
            1nat
        } else {
            0nat
        }
    }
}

/// The k-cluster rule: adding `x` to the blue set `cur` keeps every blue
/// anticone at most `K`.
pub open spec fn blue_ok(s: DagStore, cur: Seq<bool>, x: int) -> bool {
    &&& anti_count(s, cur, x, s.len()) <= GHOSTDAG_K
    &&& forall|d: int| 0 <= d < s.len() && cur[d] && s.anticone(d, x) ==> #[trigger] anti_count(s, cur, d, s.len()) < GHOSTDAG_K
}

/// Greedy coloring of `order` against the initial blue set `cur`: the final
/// blue indicator, the blues and the reds, in order.
pub open spec fn color(s: DagStore, cur: Seq<bool>, order: Seq<usize>) -> (Seq<bool>, Seq<usize>, Seq<usize>)
    decreases order.len(),
{
    if order.len() == 0 {
        (cur, Seq::empty(), Seq::empty())
    } else {
        let prev = color(s, cur, order.drop_last());
        let x = order.last();
        if blue_ok(s, prev.0, x as int) {
            (prev.0.update(x as int, true), prev.1.push(x), prev.2)
        } else {
            (prev.0, prev.1, prev.2.push(x))
        }
    }
}

/// Every colored block is either blue or red.
pub proof fn lemma_color_len(s: DagStore, cur: Seq<bool>, order: Seq<usize>)
    requires
        forall|k: int| 0 <= k < order.len() ==> (#[trigger] order[k]) < cur.len(),
    ensures
        color(s, cur, order).1.len() + color(s, cur, order).2.len() == order.len(),
        color(s, cur, order).0.len() == cur.len(),
    decreases order.len(),
{
    if order.len() > 0 {
        assert forall|k: int| 0 <= k < order.drop_last().len() implies (#[trigger] order.drop_last()[k]) < cur.len() by {
            assert(order.drop_last()[k] == order[k]);
        }
        lemma_color_len(s, cur, order.drop_last());
    }
}

/// Colored blocks come from the processing order.
pub proof fn lemma_color_bound(s: DagStore, cur: Seq<bool>, order: Seq<usize>, bound: int)
    requires
        forall|k: int| 0 <= k < order.len() ==> (#[trigger] order[k]) < bound,
    ensures
        forall|k: int| 0 <= k < color(s, cur, order).1.len() ==> (#[trigger] color(s, cur, order).1[k]) < bound,
        forall|k: int| 0 <= k < color(s, cur, order).2.len() ==> (#[trigger] color(s, cur, order).2[k]) < bound,
    decreases order.len(),
{
    if order.len() > 0 {
        assert forall|k: int| 0 <= k < order.drop_last().len() implies (#[trigger] order.drop_last()[k]) < bound by {
            assert(order.drop_last()[k] == order[k]);
        }
        lemma_color_bound(s, cur, order.drop_last(), bound);
        assert(order.last() == order[order.len() - 1]);
        let prev = color(s, cur, order.drop_last());
        let now = color(s, cur, order);
        assert forall|k: int| 0 <= k < now.1.len() implies (#[trigger] now.1[k]) < bound by {
            if k < prev.1.len() {
                assert(now.1[k] == prev.1[k]);
            }
        }
        assert forall|k: int| 0 <= k < now.2.len() implies (#[trigger] now.2[k]) < bound by {
            if k < prev.2.len() {
                assert(now.2[k] == prev.2[k]);
            }
        }
    }
}

/// How many blocks marked in `cur` are in the anticone of `x`.
fn anti_count_exec(s: &DagStore, cur: &Vec<bool>, x: usize) -> (c: usize)
    requires
        s.wf(),
        x < s.len(),
        cur@.len() == s.len(),
    ensures
        c as nat == anti_count(*s, cur@, x as int, s.len()),
{
    let mut xv: Vec<usize> = Vec::new();
    xv.push(x);
    let am = past_marks(s, &xv);
    proof {
        assert(xv@ =~= seq![x]);
        lemma_idx_set_single(xv@, x);
    }
    let dm = desc_marks(s, x);
    let mut c: usize = 0;
    let mut b: usize = 0;
    while b < s.nodes.len()
        invariant
            b <= s.len(),
            c <= b,
            cur@.len() == s.len(),
            am@.len() == s.len(),
            dm@.len() == s.len(),
            forall|y: int| 0 <= y < s.len() ==> am@[y] == s.is_ancestor(y, x as int),
            forall|y: int| 0 <= y < s.len() ==> dm@[y] == s.is_ancestor(x as int, y),
            c as nat == anti_count(*s, cur@, x as int, b as int),
        decreases s.len() - b,
    {
        if cur[b] && b != x && !am[b] && !dm[b] {
            c = c + 1;
        }
        b = b + 1;
    }
    c
}

/// Whether `x` may join the blue set `cur`.
fn blue_ok_exec(s: &DagStore, cur: &Vec<bool>, x: usize) -> (r: bool)
    requires
        s.wf(),
        x < s.len(),
        cur@.len() == s.len(),
    ensures
        r == blue_ok(*s, cur@, x as int),
{
    let cx = anti_count_exec(s, cur, x);
    if cx as u64 > GHOSTDAG_K {
        return false;
    }
    let mut xv: Vec<usize> = Vec::new();
    xv.push(x);
    let am = past_marks(s, &xv);
    proof {
        assert(xv@ =~= seq![x]);
        lemma_idx_set_single(xv@, x);
    }
    let dm = desc_marks(s, x);
    let mut d: usize = 0;
    while d < s.nodes.len()
        invariant
            d <= s.len(),
            s.wf(),
            x < s.len(),
            cur@.len() == s.len(),
            am@.len() == s.len(),
            dm@.len() == s.len(),
            forall|y: int| 0 <= y < s.len() ==> am@[y] == s.is_ancestor(y, x as int),
            forall|y: int| 0 <= y < s.len() ==> dm@[y] == s.is_ancestor(x as int, y),
            forall|e: int| 0 <= e < d && cur@[e] && s.anticone(e, x as int) ==> #[trigger] anti_count(*s, cur@, e, s.len()) < GHOSTDAG_K,
        decreases s.len() - d,
    {
        if cur[d] && d != x && !am[d] && !dm[d] {
            let cd = anti_count_exec(s, cur, d);
            if cd as u64 >= GHOSTDAG_K {
                return false;
            }
        }
        d = d + 1;
    }
    true
}

/// Color `order` greedily, starting from the blue set `init`.
fn color_exec(s: &DagStore, init: Vec<bool>, order: &Vec<usize>) -> (r: (Vec<usize>, Vec<usize>))
    requires
        s.wf(),
        init@.len() == s.len(),
        forall|k: int| 0 <= k < order@.len() ==> (#[trigger] order@[k]) < s.len(),
    ensures
        r.0@ == color(*s, init@, order@).1,
        r.1@ == color(*s, init@, order@).2,
{
    let mut cur = init;
    let mut blues: Vec<usize> = Vec::new();
    let mut reds: Vec<usize> = Vec::new();
    let mut t: usize = 0;
    proof {
        assert(order@.take(0) =~= Seq::<usize>::empty());
    }
    while t < order.len()
        invariant
            t <= order@.len(),
            s.wf(),
            init@.len() == s.len(),
            forall|k: int| 0 <= k < order@.len() ==> (#[trigger] order@[k]) < s.len(),
            cur@ == color(*s, init@, order@.take(t as int)).0,
            blues@ == color(*s, init@, order@.take(t as int)).1,
            reds@ == color(*s, init@, order@.take(t as int)).2,
        decreases order@.len() - t,
    {
        proof {
            assert forall|k: int| 0 <= k < order@.take(t as int).len() implies (#[trigger] order@.take(t as int)[k]) < init@.len() by {
                assert(order@.take(t as int)[k] == order@[k]);
            }
            lemma_color_len(*s, init@, order@.take(t as int));
            assert(order@.take(t + 1).drop_last() =~= order@.take(t as int));
            assert(order@.take(t + 1).last() == order@[t as int]);
        }
        let x = order[t];
        if blue_ok_exec(s, &cur, x) {
            cur.set(x, true);
            blues.push(x);
        } else {
            reds.push(x);
        }
        t = t + 1;
    }
    proof {
        assert(order@.take(order@.len() as int) =~= order@);
    }
    (blues, reds)
}


/// Distinct byte strings of one length are ordered one way or the other.
pub proof fn lemma_lex_total(a: Seq<u8>, b: Seq<u8>)
    requires
        a.len() == b.len(),
        a != b,
    ensures
        lex_lt(a, b) || lex_lt(b, a),
    decreases a.len(),
{
    if a.len() > 0 && a[0] == b[0] {
        if a.drop_first() == b.drop_first() {
            assert(a =~= seq![a[0]] + a.drop_first());
            assert(b =~= seq![b[0]] + b.drop_first());
        }
        lemma_lex_total(a.drop_first(), b.drop_first());
    } else if a.len() == 0 {
        assert(a =~= b);
    }
}

/// Byte strings of one length with equal big-endian values are equal.
pub proof fn lemma_be_value_injective(a: Seq<u8>, b: Seq<u8>)
    requires
        a.len() == b.len(),
        be_value(a) == be_value(b),
    ensures
        a == b,
{
    if a != b {
        lemma_lex_total(a, b);
        lemma_lex_lt_is_numeric(a, b);
        lemma_lex_lt_is_numeric(b, a);
    }
}

/// In a well-formed store the best parent is unique.
pub proof fn lemma_best_unique(s: DagStore, p: Seq<usize>, a: usize, b: usize)
    requires
        s.wf(),
        forall|k: int| 0 <= k < p.len() ==> (#[trigger] p[k]) < s.len(),
        is_best_of(s, p, a),
        is_best_of(s, p, b),
    ensures
        a == b,
{
    let ka = choose|k: int| 0 <= k < p.len() && p[k] == a;
    let kb = choose|k: int| 0 <= k < p.len() && p[k] == b;
    assert(!outranks(s, p[ka] as int, b as int));
    assert(!outranks(s, p[kb] as int, a as int));
    if a != b {
        assert(s.hash_of(a as int) != s.hash_of(b as int));
        if be_value(s.hash_of(a as int)) == be_value(s.hash_of(b as int)) {
            lemma_be_value_injective(s.hash_of(a as int), s.hash_of(b as int));
        }
    }
}

/// Blues (after the selected parent) and reds of a block with parents `p`
/// whose selected parent is `sp`: the mergeset in processing order, colored
/// greedily against the blue set seen from `sp`.
pub open spec fn spec_coloring(s: DagStore, p: Seq<usize>, sp: usize) -> (Seq<usize>, Seq<usize>) {
    let order = topo_order(s, mergeset_of(s, p, sp as int));
    let c = color(s, mat_init(s, sp as int), order);
    (seq![sp] + c.1, c.2)
}

/// GHOSTDAG data of a new block, by store position.
pub struct Coloring {
    pub selected_parent: usize,
    /// Blue merged blocks; `[0]` is the selected parent.
    pub blues: Vec<usize>,
    pub reds: Vec<usize>,
    pub blue_score: u64,
}

/// Block scores leave room for one more block's blues.
pub open spec fn scores_fit(s: DagStore) -> bool {
    forall|y: int| 0 <= y < s.len() ==> #[trigger] s.score(y) + s.len() + 1 <= u64::MAX
}

/// GHOSTDAG coloring of a new block whose parents are at positions `p`;
/// `Err(m)` when its mergeset has `m > max_mergeset` blocks (checked before
/// the coloring work).
pub fn try_color_idx(s: &DagStore, p: &Vec<usize>, max_mergeset: usize) -> (r: Result<Coloring, usize>)
    requires
        s.wf(),
        scores_fit(*s),
        p@.len() > 0,
        forall|k: int| 0 <= k < p@.len() ==> (#[trigger] p@[k]) < s.len(),
    ensures
        match r {
            Ok(c) => {
                &&& is_best_of(*s, p@, c.selected_parent)
                &&& mergeset_of(*s, p@, c.selected_parent as int).len() <= max_mergeset
                &&& (c.blues@, c.reds@) == spec_coloring(*s, p@, c.selected_parent)
                &&& c.blue_score == s.score(c.selected_parent as int) + c.blues@.len()
                &&& forall|k: int| 0 <= k < c.blues@.len() ==> (#[trigger] c.blues@[k]) < s.len()
                &&& forall|k: int| 0 <= k < c.reds@.len() ==> (#[trigger] c.reds@[k]) < s.len()
            },
            Err(m) => exists|sp: usize| #[trigger] is_best_of(*s, p@, sp)
                && m == mergeset_of(*s, p@, sp as int).len() && m > max_mergeset,
        },
{
    let n = s.nodes.len();
    let sp = select_parent_idx(s, p);
    let ms = mergeset_exec(s, p, sp);
    if ms.len() > max_mergeset {
        return Err(ms.len());
    }
    proof {
        lemma_mergeset_upto_sorted(*s, p@, sp as int, s.len());
    }
    let ranks = ranks_exec(s, &ms);
    let order = topo_sort(s, &ms, &ranks);
    proof {
        lemma_topo_total(*s, ms@);
        ms@.lemma_sort_by_ensures(topo_leq(*s, ms@));
        vstd::seq_lib::to_multiset_len(ms@);
        vstd::seq_lib::to_multiset_len(order@);
        assert forall|k: int| 0 <= k < order@.len() implies (#[trigger] order@[k]) < s.len() by {
            vstd::seq_lib::to_multiset_contains(order@, order@[k]);
            vstd::seq_lib::to_multiset_contains(ms@, order@[k]);
            assert(order@.contains(order@[k]));
        }
    }
    let init = materialize(s, sp);
    let (b, red) = color_exec(s, init, &order);
    proof {
        lemma_color_len(*s, mat_init(*s, sp as int), order@);
        lemma_color_bound(*s, mat_init(*s, sp as int), order@, s.len());
        assert(order@.len() == ms@.len());
        assert(ms@.len() <= n);
        assert(s.score(sp as int) + s.len() + 1 <= u64::MAX);
    }
    let mut blues: Vec<usize> = Vec::new();
    blues.push(sp);
    let mut bb = b;
    let ghost b0 = bb@;
    blues.append(&mut bb);
    proof {
        assert(blues@ =~= seq![sp] + b0);
        assert forall|k: int| 0 <= k < blues@.len() implies (#[trigger] blues@[k]) < s.len() by {
            if k > 0 {
                assert(blues@[k] == b0[k - 1]);
            }
        }
    }
    let score = s.nodes[sp].blue_score + blues.len() as u64;
    Ok(Coloring { selected_parent: sp, blues, reds: red, blue_score: score })
}


/// The hashes of the blocks at positions `idx`.
pub open spec fn hashes_at(s: DagStore, idx: Seq<usize>) -> Seq<Seq<u8>> {
    idx.map_values(|i: usize| s.hash_of(i as int))
}

/// The views of a list of hashes.
pub open spec fn hash_views(h: Seq<crate::hash::Hash>) -> Seq<Seq<u8>> {
    h.map_values(|x: crate::hash::Hash| x@)
}

/// The hashes of the blocks at positions `idx`.
fn hashes_exec(s: &DagStore, idx: &Vec<usize>) -> (r: Vec<crate::hash::Hash>)
    requires
        forall|k: int| 0 <= k < idx@.len() ==> (#[trigger] idx@[k]) < s.len(),
    ensures
        hash_views(r@) == hashes_at(*s, idx@),
{
    let mut out: Vec<crate::hash::Hash> = Vec::new();
    let mut k: usize = 0;
    while k < idx.len()
        invariant
            k <= idx@.len(),
            forall|t: int| 0 <= t < idx@.len() ==> (#[trigger] idx@[t]) < s.len(),
            out@.len() == k,
            hash_views(out@) == hashes_at(*s, idx@.take(k as int)),
        decreases idx@.len() - k,
    {
        let ghost old_out = out@;
        out.push(s.nodes[idx[k]].hash);
        proof {
            assert(idx@.take(k + 1) =~= idx@.take(k as int).push(idx@[k as int]));
            assert forall|j: int| 0 <= j < k + 1 implies hash_views(out@)[j] == hashes_at(*s, idx@.take(k + 1))[j] by {
                if j < k {
                    assert(out@[j] == old_out[j]);
                    assert(hash_views(old_out)[j] == hashes_at(*s, idx@.take(k as int))[j]);
                }
            }
            assert(hash_views(out@) =~= hashes_at(*s, idx@.take(k + 1)));
        }
        k = k + 1;
    }
    proof {
        assert(idx@.take(idx@.len() as int) =~= idx@);
    }
    out
}

/// Like [`compute_ghostdag_data`], but refuses a block whose mergeset has
/// more than `max_mergeset` blocks, before doing the coloring work. A block
/// with no stored parent gets the genesis data.
pub fn try_compute_ghostdag_data(s: &DagStore, parents: &[crate::hash::Hash], max_mergeset: usize) -> (r: Result<GhostdagData, String>)
    requires
        s.wf(),
        scores_fit(*s),
    ensures
        s.present_indices(parents@).len() == 0 ==> (r matches Ok(g) && g.blue_score == 0 && g.selected_parent is None
            && g.mergeset_blues@.len() == 0 && g.mergeset_reds@.len() == 0),
        s.present_indices(parents@).len() > 0 ==> forall|sp: usize| #[trigger] is_best_of(*s, s.present_indices(parents@), sp) ==> {
            let p = s.present_indices(parents@);
            let c = spec_coloring(*s, p, sp);
            &&& (r is Ok <==> mergeset_of(*s, p, sp as int).len() <= max_mergeset)
            &&& (r matches Err(e) ==> e@ == "Mergeset too large: "@ + crate::abs_sig::decimal_digits(mergeset_of(*s, p, sp as int).len())
                + " blocks exceeds cap "@ + crate::abs_sig::decimal_digits(max_mergeset as nat))
            &&& (r matches Ok(g) ==> {
                &&& g.selected_parent matches Some(h) && h@ == s.hash_of(sp as int)
                &&& hash_views(g.mergeset_blues@) == hashes_at(*s, c.0)
                &&& hash_views(g.mergeset_reds@) == hashes_at(*s, c.1)
                &&& g.blue_score == s.score(sp as int) + c.0.len()
            })
        },
{
    let p = present_parent_indices(s, parents);
    if p.len() == 0 {
        return Ok(GhostdagData::genesis());
    }
    match try_color_idx(s, &p, max_mergeset) {
        Ok(c) => {
            let blues = hashes_exec(s, &c.blues);
            let reds = hashes_exec(s, &c.reds);
            proof {
                assert forall|sp: usize| #[trigger] is_best_of(*s, p@, sp) implies sp == c.selected_parent by {
                    lemma_best_unique(*s, p@, sp, c.selected_parent);
                }
            }
            Ok(GhostdagData {
                blue_score: c.blue_score,
                selected_parent: Some(s.nodes[c.selected_parent].hash),
                mergeset_blues: blues,
                mergeset_reds: reds,
            })
        },
        Err(m) => {
            proof {
                let sp0 = choose|sp: usize| #[trigger] is_best_of(*s, p@, sp) && m == mergeset_of(*s, p@, sp as int).len() && m > max_mergeset;
                assert forall|sp: usize| #[trigger] is_best_of(*s, p@, sp) implies sp == sp0 by {
                    lemma_best_unique(*s, p@, sp, sp0);
                }
            }
            let head = crate::abs_sig::text_with_number("Mergeset too large: ", m as u64);
            let mid = crate::economics::concat(head.as_str(), " blocks exceeds cap ");
            let tail = crate::abs_sig::u64_to_decimal(max_mergeset as u64);
            Err(crate::economics::concat(mid.as_str(), tail.as_str()))
        },
    }
}

/// GHOSTDAG data for a new block with the given parents, with no bound on
/// the mergeset size.
pub fn compute_ghostdag_data(s: &DagStore, parents: &[crate::hash::Hash]) -> (r: GhostdagData)
    requires
        s.wf(),
        scores_fit(*s),
    ensures
        s.present_indices(parents@).len() == 0 ==> (r.blue_score == 0 && r.selected_parent is None
            && r.mergeset_blues@.len() == 0 && r.mergeset_reds@.len() == 0),
        s.present_indices(parents@).len() > 0 ==> forall|sp: usize| #[trigger] is_best_of(*s, s.present_indices(parents@), sp) ==> {
            let c = spec_coloring(*s, s.present_indices(parents@), sp);
            &&& r.selected_parent matches Some(h) && h@ == s.hash_of(sp as int)
            &&& hash_views(r.mergeset_blues@) == hashes_at(*s, c.0)
            &&& hash_views(r.mergeset_reds@) == hashes_at(*s, c.1)
            &&& r.blue_score == s.score(sp as int) + c.0.len()
        },
{
    let p = present_parent_indices(s, parents);
    let n = s.nodes.len();
    if p.len() > 0 {
        let sp = select_parent_idx(s, &p);
        proof {
            lemma_mergeset_upto_sorted(*s, p@, sp as int, s.len());
            assert forall|sp2: usize| #[trigger] is_best_of(*s, p@, sp2) implies mergeset_of(*s, p@, sp2 as int).len() <= usize::MAX by {
                lemma_best_unique(*s, p@, sp, sp2);
            }
        }
    }
    match try_compute_ghostdag_data(s, parents, usize::MAX) {
        Ok(g) => g,
        Err(_) => GhostdagData::genesis(),
    }
}


/// `c` is the selected chain ending at `tip`: it starts at a block with no
/// selected parent and each block's selected parent precedes it.
pub open spec fn is_selected_chain(s: DagStore, c: Seq<usize>, tip: int) -> bool {
    &&& c.len() > 0
    &&& c.last() as int == tip
    &&& forall|q: int| 0 <= q < c.len() ==> (#[trigger] c[q]) < s.len()
    &&& s.nodes@[c[0] as int].selected_parent is None
    &&& forall|q: int| 0 < q < c.len() ==> s.nodes@[#[trigger] c[q] as int].selected_parent == Some(c[q - 1])
}

/// The selected chain from the first block to `tip`, by position.
pub fn selected_chain_idx(s: &DagStore, tip: usize) -> (c: Vec<usize>)
    requires
        s.wf(),
        tip < s.len(),
    ensures
        is_selected_chain(*s, c@, tip as int),
{
    let mut rev: Vec<usize> = Vec::new();
    rev.push(tip);
    let mut cur = tip;
    loop
        invariant_except_break
            s.wf(),
            cur < s.len(),
            rev@.len() > 0,
            rev@[0] == tip,
            rev@.last() == cur,
            forall|q: int| 0 <= q < rev@.len() ==> (#[trigger] rev@[q]) < s.len(),
            forall|q: int| 0 <= q < rev@.len() - 1 ==> s.nodes@[#[trigger] rev@[q] as int].selected_parent == Some(rev@[q + 1]),
        ensures
            s.wf(),
            rev@.len() > 0,
            rev@[0] == tip,
            forall|q: int| 0 <= q < rev@.len() ==> (#[trigger] rev@[q]) < s.len(),
            forall|q: int| 0 <= q < rev@.len() - 1 ==> s.nodes@[#[trigger] rev@[q] as int].selected_parent == Some(rev@[q + 1]),
            s.nodes@[rev@.last() as int].selected_parent is None,
        decreases cur,
    {
        match s.nodes[cur].selected_parent {
            Some(j) => {
                proof {
                    assert(j < cur);
                }
                let ghost old_rev = rev@;
                rev.push(j);
                proof {
                    assert forall|q: int| 0 <= q < rev@.len() - 1 implies s.nodes@[#[trigger] rev@[q] as int].selected_parent == Some(rev@[q + 1]) by {
                        if q < old_rev.len() - 1 {
                            assert(rev@[q] == old_rev[q] && rev@[q + 1] == old_rev[q + 1]);
                        } else {
                            assert(rev@[q] == cur && rev@[q + 1] == j);
                        }
                    }
                }
                cur = j;
            },
            None => {
                break;
            },
        }
    }
    let mut out: Vec<usize> = Vec::new();
    let mut t: usize = rev.len();
    while t > 0
        invariant
            t <= rev@.len(),
            out@.len() == rev@.len() - t,
            forall|q: int| 0 <= q < out@.len() ==> out@[q] == rev@[rev@.len() - 1 - q],
        decreases t,
    {
        out.push(rev[t - 1]);
        t = t - 1;
    }
    proof {
        let l = rev@.len() as int;
        assert(out@.last() == rev@[0]);
        assert(out@[0] == rev@[l - 1]);
        assert forall|q: int| 0 < q < out@.len() implies s.nodes@[#[trigger] out@[q] as int].selected_parent == Some(out@[q - 1]) by {
            assert(out@[q] == rev@[l - 1 - q]);
            assert(out@[q - 1] == rev@[l - 1 - q + 1]);
        }
        assert forall|q: int| 0 <= q < out@.len() implies (#[trigger] out@[q]) < s.len() by {
            assert(out@[q] == rev@[l - 1 - q]);
        }
    }
    out
}

/// The GHOSTDAG selected chain: walk selected parents from `tip` back to the
/// first block, genesis first. A tip that is not stored gives `[tip]`.
pub fn selected_chain(s: &DagStore, tip: &crate::hash::Hash) -> (r: Vec<crate::hash::Hash>)
    requires
        s.wf(),
    ensures
        !s.has(tip@) ==> hash_views(r@) == seq![tip@],
        s.has(tip@) ==> exists|c: Seq<usize>| #[trigger] is_selected_chain(*s, c, s.idx_of(tip@))
            && hash_views(r@) == hashes_at(*s, c),
{
    match index_of(s, tip) {
        Some(i) => {
            proof {
                s.lemma_idx_of_unique(tip@, i as int);
            }
            let c = selected_chain_idx(s, i);
            hashes_exec(s, &c)
        },
        None => {
            let mut v: Vec<crate::hash::Hash> = Vec::new();
            v.push(*tip);
            proof {
                assert(hash_views(v@) =~= seq![tip@]);
            }
            v
        },
    }
}

/// The selected tip: the stored tip with the highest blue score (ties: the
/// larger hash).
pub fn selected_tip(s: &DagStore, tips: &[crate::hash::Hash]) -> (r: Option<crate::hash::Hash>)
    requires
        s.wf(),
    ensures
        r is None <==> forall|k: int| 0 <= k < tips@.len() ==> !s.has(tips@[k]@),
        r matches Some(h) ==> exists|i: usize| #[trigger] is_best_of(*s, s.present_indices(tips@), i)
            && s.hash_of(i as int) == h@,
{
    select_parent(s, tips)
}

impl DagStore {
    /// An empty store.
    pub fn new() -> (r: DagStore)
        ensures
            r.len() == 0,
            r.wf(),
    {
        DagStore { nodes: Vec::new() }
    }

    /// Append a block whose references all point to stored blocks.
    pub fn push_node(&mut self, node: DagNode)
        requires
            old(self).wf(),
            !old(self).has(node.hash@),
            forall|k: int| 0 <= k < node.parents@.len() ==> (#[trigger] node.parents@[k]) < old(self).len(),
            forall|k: int| 0 <= k < node.blues@.len() ==> (#[trigger] node.blues@[k]) < old(self).len(),
            forall|k: int| 0 <= k < node.reds@.len() ==> (#[trigger] node.reds@[k]) < old(self).len(),
            node.selected_parent matches Some(j) ==> j < old(self).len(),
        ensures
            final(self).nodes@ == old(self).nodes@.push(node),
            final(self).wf(),
    {
        let ghost old_nodes = self.nodes@;
        self.nodes.push(node);
        proof {
            let n0 = old_nodes.len() as int;
            assert(self.nodes@[n0] == node);
            assert forall|a: int, b: int| 0 <= a < self.len() && 0 <= b < self.len() && a != b implies #[trigger] self.hash_of(a) != #[trigger] self.hash_of(b) by {
                if a < n0 && b < n0 {
                    assert(self.nodes@[a] == old_nodes[a] && self.nodes@[b] == old_nodes[b]);
                    assert(self.hash_of(a) == old(self).hash_of(a));
                    assert(self.hash_of(b) == old(self).hash_of(b));
                } else if a == n0 {
                    assert(self.nodes@[b] == old_nodes[b]);
                    assert(self.hash_of(b) == old(self).hash_of(b));
                    assert(old(self).hash_of(b) != node.hash@);
                } else {
                    assert(self.nodes@[a] == old_nodes[a]);
                    assert(self.hash_of(a) == old(self).hash_of(a));
                    assert(old(self).hash_of(a) != node.hash@);
                }
            }
            assert forall|y: int, k: int| 0 <= y < self.len() && 0 <= k < self.npar(y) implies #[trigger] self.par(y, k) < y by {
                if y < n0 {
                    assert(self.nodes@[y] == old_nodes[y]);
                    assert(self.par(y, k) == old(self).par(y, k));
                } else {
                    assert(self.par(y, k) == node.parents@[k] as int);
                }
            }
            assert forall|y: int| 0 <= y < self.len() implies match #[trigger] self.nodes@[y].selected_parent {
                Some(j) => j < y,
                None => true,
            } by {
                if y < n0 {
                    assert(self.nodes@[y] == old_nodes[y]);
                }
            }
            assert forall|y: int, k: int| 0 <= y < self.len() && 0 <= k < self.nodes@[y].blues@.len() implies #[trigger] self.nodes@[y].blues@[k] < y by {
                if y < n0 {
                    assert(self.nodes@[y] == old_nodes[y]);
                }
            }
            assert forall|y: int, k: int| 0 <= y < self.len() && 0 <= k < self.nodes@[y].reds@.len() implies #[trigger] self.nodes@[y].reds@[k] < y by {
                if y < n0 {
                    assert(self.nodes@[y] == old_nodes[y]);
                }
            }
        }
    }

    /// Whether every stored blue score leaves room for one more block.
    pub fn check_scores_fit(&self) -> (r: bool)
        ensures
            r == scores_fit(*self),
    {
        let n = self.nodes.len();
        if n as u64 >= u64::MAX {
            proof {
                assert(self.score(0) + self.len() + 1 > u64::MAX);
            }
            return false;
        }
        let lim: u64 = u64::MAX - 1 - n as u64;
        let mut i: usize = 0;
        while i < n
            invariant
                i <= n,
                n == self.len(),
                lim == u64::MAX - 1 - n,
                forall|y: int| 0 <= y < i ==> #[trigger] self.score(y) + self.len() + 1 <= u64::MAX,
            decreases n - i,
        {
            if self.nodes[i].blue_score > lim {
                proof {
                    assert(self.score(i as int) + self.len() + 1 > u64::MAX);
                }
                return false;
            }
            i = i + 1;
        }
        true
    }

    /// The GHOSTDAG data of the block at position `i`, with hashes.
    pub fn data_of(&self, i: usize) -> (r: GhostdagData)
        requires
            self.wf(),
            i < self.len(),
        ensures
            r.blue_score == self.nodes@[i as int].blue_score,
            match self.nodes@[i as int].selected_parent {
                Some(j) => r.selected_parent matches Some(h) && h@ == self.hash_of(j as int),
                None => r.selected_parent is None,
            },
            hash_views(r.mergeset_blues@) == hashes_at(*self, self.nodes@[i as int].blues@),
            hash_views(r.mergeset_reds@) == hashes_at(*self, self.nodes@[i as int].reds@),
    {
        let node = &self.nodes[i];
        let sp = match node.selected_parent {
            Some(j) => Some(self.nodes[j].hash),
            None => None,
        };
        GhostdagData {
            blue_score: node.blue_score,
            selected_parent: sp,
            mergeset_blues: hashes_exec(self, &node.blues),
            mergeset_reds: hashes_exec(self, &node.reds),
        }
    }
}


/// Blue and red outputs together are the processing order, as a multiset.
pub proof fn lemma_color_multiset(s: DagStore, cur: Seq<bool>, order: Seq<usize>)
    ensures
        (color(s, cur, order).1 + color(s, cur, order).2).to_multiset() == order.to_multiset(),
    decreases order.len(),
{
    broadcast use vstd::multiset::group_multiset_axioms;
    if order.len() == 0 {
        assert(color(s, cur, order).1 + color(s, cur, order).2 =~= Seq::<usize>::empty());
        assert(order =~= Seq::<usize>::empty());
    } else {
        let prev = color(s, cur, order.drop_last());
        let x = order.last();
        lemma_color_multiset(s, cur, order.drop_last());
        vstd::seq_lib::lemma_multiset_commutative(prev.1, prev.2);
        assert(order =~= order.drop_last().push(x));
        vstd::seq_lib::to_multiset_build(order.drop_last(), x);
        if blue_ok(s, prev.0, x as int) {
            vstd::seq_lib::lemma_multiset_commutative(prev.1.push(x), prev.2);
            vstd::seq_lib::to_multiset_build(prev.1, x);
        } else {
            vstd::seq_lib::lemma_multiset_commutative(prev.1, prev.2.push(x));
            vstd::seq_lib::to_multiset_build(prev.2, x);
        }
    }
}

/// Law: the merged blocks colored blue (after the selected parent) and red
/// are exactly the mergeset: each merged block gets exactly one color.
pub proof fn law_coloring_partitions_mergeset(s: DagStore, p: Seq<usize>, sp: usize)
    ensures
        (spec_coloring(s, p, sp).0.drop_first() + spec_coloring(s, p, sp).1).to_multiset()
            == mergeset_of(s, p, sp as int).to_multiset(),
        spec_coloring(s, p, sp).0[0] == sp,
{
    let ms = mergeset_of(s, p, sp as int);
    let order = topo_order(s, ms);
    let c = color(s, mat_init(s, sp as int), order);
    lemma_color_multiset(s, mat_init(s, sp as int), order);
    lemma_topo_total(s, ms);
    ms.lemma_sort_by_ensures(topo_leq(s, ms));
    assert((seq![sp] + c.1).drop_first() =~= c.1);
}

/// The k-cluster property of a blue set: every blue block has at most `K`
/// blue blocks in its anticone.
pub open spec fn k_cluster(s: DagStore, cur: Seq<bool>) -> bool {
    forall|d: int| 0 <= d < s.len() && cur[d] ==> #[trigger] anti_count(s, cur, d, s.len()) <= GHOSTDAG_K
}

proof fn lemma_anti_count_add(s: DagStore, cur: Seq<bool>, x: int, d: int, upto: int)
    requires
        0 <= x < cur.len(),
        !cur[x],
        upto <= cur.len(),
    ensures
        anti_count(s, cur.update(x, true), d, upto) == anti_count(s, cur, d, upto)
            + if 0 <= x < upto && s.anticone(x, d) { 1nat } else { 0nat },
    decreases upto,
{
    if upto > 0 {
        lemma_anti_count_add(s, cur, x, d, upto - 1);
        let j = upto - 1;
        if j != x {
            assert(cur.update(x, true)[j] == cur[j]);
        }
    }
}

proof fn lemma_color_keeps_cluster(s: DagStore, cur: Seq<bool>, order: Seq<usize>)
    requires
        cur.len() == s.len(),
        k_cluster(s, cur),
        forall|k: int| 0 <= k < order.len() ==> (#[trigger] order[k]) < s.len(),
    ensures
        color(s, cur, order).0.len() == s.len(),
        k_cluster(s, color(s, cur, order).0),
    decreases order.len(),
{
    if order.len() > 0 {
        assert forall|k: int| 0 <= k < order.drop_last().len() implies (#[trigger] order.drop_last()[k]) < s.len() by {
            assert(order.drop_last()[k] == order[k]);
        }
        lemma_color_keeps_cluster(s, cur, order.drop_last());
        let prev = color(s, cur, order.drop_last()).0;
        let x = order.last() as int;
        assert(order[order.len() - 1] < s.len());
        if blue_ok(s, prev, x) && !prev[x] {
            let next = prev.update(x, true);
            assert forall|d: int| 0 <= d < s.len() && next[d] implies #[trigger] anti_count(s, next, d, s.len()) <= GHOSTDAG_K by {
                lemma_anti_count_add(s, prev, x, d, s.len());
                if d == x {
                } else {
                    assert(prev[d]);
                    if s.anticone(x, d) {
                        assert(s.anticone(d, x));
                        assert(anti_count(s, prev, d, s.len()) < GHOSTDAG_K);
                    }
                }
            }
        } else if blue_ok(s, prev, x) {
            assert(prev.update(x, true) =~= prev);
        }
    }
}

/// Law: coloring keeps the k-cluster property. If the starting blue set is
/// a k-cluster, so is the blue set after the mergeset has been colored.
pub proof fn law_coloring_keeps_k_cluster(s: DagStore, p: Seq<usize>, sp: usize)
    requires
        s.wf(),
        s.len() <= usize::MAX,
        sp < s.len(),
        k_cluster(s, mat_init(s, sp as int)),
    ensures
        k_cluster(s, color(s, mat_init(s, sp as int), topo_order(s, mergeset_of(s, p, sp as int))).0),
{
    let ms = mergeset_of(s, p, sp as int);
    lemma_mergeset_upto_sorted(s, p, sp as int, s.len());
    lemma_topo_total(s, ms);
    ms.lemma_sort_by_ensures(topo_leq(s, ms));
    let order = topo_order(s, ms);
    assert forall|k: int| 0 <= k < order.len() implies (#[trigger] order[k]) < s.len() by {
        assert(order.contains(order[k]));
        assert(ms.contains(order[k]));
        let j = choose|j: int| 0 <= j < ms.len() && ms[j] == order[k];
        assert(ms[j] < s.len());
    }
    lemma_color_keeps_cluster(s, mat_init(s, sp as int), order);
}

/// A mergeset with no member is empty.
proof fn lemma_mergeset_empty(s: DagStore, p: Seq<usize>, sp: int)
    requires
        s.len() <= usize::MAX,
        forall|x: int| !in_mergeset(s, p, sp, x),
    ensures
        mergeset_of(s, p, sp) == Seq::<usize>::empty(),
{
    lemma_mergeset_upto_sorted(s, p, sp, s.len());
    let m = mergeset_of(s, p, sp);
    if m.len() > 0 {
        assert(in_mergeset(s, p, sp, m[0] as int));
    }
    assert(m =~= Seq::<usize>::empty());
}

/// Law: a block with a single stored parent selects it, merges nothing,
/// colors no block red, and has blue score one above its parent.
pub proof fn law_single_parent_chain(s: DagStore, p: usize)
    requires
        p < s.len(),
        s.len() <= usize::MAX,
    ensures
        is_best_of(s, seq![p], p),
        spec_coloring(s, seq![p], p) == (seq![p], Seq::<usize>::empty()),
        s.score(p as int) + spec_coloring(s, seq![p], p).0.len() == s.score(p as int) + 1,
{
    broadcast use vstd::multiset::group_multiset_axioms;
    lemma_idx_set_single(seq![p], p);
    assert(seq![p][0] == p);
    lemma_mergeset_empty(s, seq![p], p as int);
    let ms = mergeset_of(s, seq![p], p as int);
    lemma_topo_total(s, ms);
    ms.lemma_sort_by_ensures(topo_leq(s, ms));
    let order = topo_order(s, ms);
    vstd::seq_lib::to_multiset_len(order);
    vstd::seq_lib::to_multiset_len(ms);
    assert(order =~= Seq::<usize>::empty());
    assert(color(s, mat_init(s, p as int), order).1 =~= Seq::<usize>::empty());
    assert(seq![p] + Seq::<usize>::empty() =~= seq![p]);
}

/// Blue scores grow along every parent edge.
pub open spec fn scores_grow(s: DagStore) -> bool {
    forall|y: int, k: int| 0 <= y < s.len() && 0 <= k < s.npar(y) ==> s.score(#[trigger] s.par(y, k)) < s.score(y)
}

/// Every block that the selected chain of `i` records as blue lies in the
/// past of `i`.
pub open spec fn blues_in_past(s: DagStore) -> bool {
    forall|i: int, x: int| 0 <= i < s.len() && #[trigger] chain_blue(s, i, x) ==> s.is_ancestor(x, i)
}

/// Where scores grow along edges, a proper ancestor scores lower.
proof fn lemma_score_ancestor(s: DagStore, a: int, b: int)
    requires
        s.wf(),
        scores_grow(s),
        0 <= b < s.len(),
        s.is_ancestor(a, b),
    ensures
        a == b || s.score(a) < s.score(b),
{
    let c = Set::new(|y: int| y == b || (0 <= y < s.len() && s.score(y) < s.score(b)));
    assert forall|y: int, k: int| #![trigger c.contains(y), s.par(y, k)]
        c.contains(y) && 0 <= y < s.len() && 0 <= k < s.npar(y) implies c.contains(s.par(y, k)) by {
        assert(s.par(y, k) < y);
        assert(s.score(s.par(y, k)) < s.score(y));
    }
    assert(s.closed(c));
    assert(set![b].subset_of(c));
}

/// A block in the past of a set of roots is in the past of one of them.
proof fn lemma_past_of_roots(s: DagStore, p: Seq<usize>, x: int)
    requires
        s.in_past(idx_set(p), x),
    ensures
        exists|k: int| 0 <= k < p.len() && #[trigger] s.is_ancestor(x, p[k] as int),
{
    let c = Set::new(|y: int| exists|k: int| 0 <= k < p.len() && #[trigger] s.is_ancestor(y, p[k] as int));
    assert forall|y: int| idx_set(p).contains(y) implies c.contains(y) by {
        let k = choose|k: int| 0 <= k < p.len() && p[k] as int == y;
        lemma_root_in_past(&s, set![p[k] as int], y);
        assert(s.is_ancestor(y, p[k] as int));
    }
    assert forall|y: int, j: int| #![trigger c.contains(y), s.par(y, j)]
        c.contains(y) && 0 <= y < s.len() && 0 <= j < s.npar(y) implies c.contains(s.par(y, j)) by {
        let k = choose|k: int| 0 <= k < p.len() && #[trigger] s.is_ancestor(y, p[k] as int);
        lemma_parent_in_past(&s, set![p[k] as int], y, j);
        assert(s.is_ancestor(s.par(y, j), p[k] as int));
    }
    assert(s.closed(c));
    assert(idx_set(p).subset_of(c));
}

/// A merged block lies in the anticone of the selected parent.
proof fn lemma_merged_in_anticone(s: DagStore, p: Seq<usize>, sp: usize, x: int)
    requires
        s.wf(),
        scores_grow(s),
        is_best_of(s, p, sp),
        sp < s.len(),
        forall|k: int| 0 <= k < p.len() ==> (#[trigger] p[k]) < s.len(),
        0 <= x < s.len(),
        in_mergeset(s, p, sp as int, x),
    ensures
        s.anticone(x, sp as int),
{
    lemma_root_in_past(&s, set![sp as int], sp as int);
    if s.is_ancestor(sp as int, x) {
        lemma_score_ancestor(s, sp as int, x);
        lemma_past_of_roots(s, p, x);
        let k = choose|k: int| 0 <= k < p.len() && #[trigger] s.is_ancestor(x, p[k] as int);
        lemma_score_ancestor(s, x, p[k] as int);
        assert(!outranks(s, p[k] as int, sp as int));
    }
}

/// Coloring blocks of the selected parent's anticone, none blue yet: each
/// new blue adds one to the selected parent's blue anticone, which stays
/// within `K`.
proof fn lemma_color_new_blues(s: DagStore, cur: Seq<bool>, order: Seq<usize>, sp: int)
    requires
        cur.len() == s.len(),
        0 <= sp < s.len(),
        cur[sp],
        order.no_duplicates(),
        forall|k: int| 0 <= k < order.len() ==> (#[trigger] order[k]) < s.len() && !cur[order[k] as int]
            && s.anticone(order[k] as int, sp),
    ensures
        color(s, cur, order).0.len() == s.len(),
        color(s, cur, order).0[sp],
        forall|y: int| 0 <= y < s.len() && !order.contains(y as usize) ==> #[trigger] color(s, cur, order).0[y] == cur[y],
        color(s, cur, order).1.len() + anti_count(s, cur, sp, s.len() as int) == anti_count(s, color(s, cur, order).0, sp, s.len() as int),
        color(s, cur, order).1.len() <= GHOSTDAG_K,
    decreases order.len(),
{
    if order.len() > 0 {
        let d = order.drop_last();
        assert forall|k: int| 0 <= k < d.len() implies (#[trigger] d[k]) < s.len() && !cur[d[k] as int]
            && s.anticone(d[k] as int, sp) by {
            assert(d[k] == order[k]);
        }
        assert forall|a: int, b: int| 0 <= a < d.len() && 0 <= b < d.len() && a != b implies d[a] != d[b] by {
            assert(d[a] == order[a] && d[b] == order[b]);
        }
        assert(d.no_duplicates());
        lemma_color_new_blues(s, cur, d, sp);
        let prev = color(s, cur, d);
        let x = order[order.len() - 1];
        assert(order.last() == x);
        if d.contains(x) {
            let j = choose|j: int| 0 <= j < d.len() && d[j] == x;
            assert(order[j] == x);
        }
        assert(prev.0[x as int] == cur[x as int]);
        assert(x < s.len() && !cur[x as int] && s.anticone(x as int, sp));
        if blue_ok(s, prev.0, x as int) {
            lemma_anti_count_add(s, prev.0, x as int, sp, s.len() as int);
            assert(s.anticone(sp, x as int));
            assert(anti_count(s, prev.0, sp, s.len() as int) < GHOSTDAG_K);
            assert forall|y: int| 0 <= y < s.len() && !order.contains(y as usize) implies #[trigger] color(s, cur, order).0[y] == cur[y] by {
                assert(y != x as int);
                if d.contains(y as usize) {
                    let j = choose|j: int| 0 <= j < d.len() && d[j] == y as usize;
                    assert(order[j] == d[j]);
                }
            }
        } else {
            assert forall|y: int| 0 <= y < s.len() && !order.contains(y as usize) implies #[trigger] color(s, cur, order).0[y] == cur[y] by {
                if d.contains(y as usize) {
                    let j = choose|j: int| 0 <= j < d.len() && d[j] == y as usize;
                    assert(order[j] == d[j]);
                }
            }
        }
    }
}

/// Law: where blue scores grow along parent edges and every recorded blue
/// lies in the past of the block that records it, the coloring of a new
/// block marks at most `K` merged blocks blue, so its blues, the selected
/// parent first, number at most `K + 1`.
pub proof fn law_mergeset_blues_bounded(s: DagStore, p: Seq<usize>, sp: usize)
    requires
        s.wf(),
        s.len() <= usize::MAX,
        scores_grow(s),
        blues_in_past(s),
        is_best_of(s, p, sp),
        forall|k: int| 0 <= k < p.len() ==> (#[trigger] p[k]) < s.len(),
    ensures
        spec_coloring(s, p, sp).0.len() <= GHOSTDAG_K + 1,
{
    broadcast use vstd::multiset::group_multiset_axioms;
    let ks = choose|k: int| 0 <= k < p.len() && p[k] == sp;
    assert(sp < s.len());
    let ms = mergeset_of(s, p, sp as int);
    lemma_mergeset_upto_sorted(s, p, sp as int, s.len() as int);
    lemma_topo_total(s, ms);
    ms.lemma_sort_by_ensures(topo_leq(s, ms));
    let order = topo_order(s, ms);
    assert forall|a: int, b: int| 0 <= a < ms.len() && 0 <= b < ms.len() && a != b implies ms[a] != ms[b] by {
        if a < b {
            assert(ms[a] < ms[b]);
        } else {
            assert(ms[b] < ms[a]);
        }
    }
    assert(ms.no_duplicates());
    ms.lemma_multiset_has_no_duplicates();
    assert forall|x: usize| order.to_multiset().contains(x) implies order.to_multiset().count(x) == 1 by {
        assert(ms.to_multiset().contains(x));
    }
    order.lemma_multiset_has_no_duplicates_conv();
    let cur = mat_init(s, sp as int);
    assert forall|k: int| 0 <= k < order.len() implies (#[trigger] order[k]) < s.len() && !cur[order[k] as int]
        && s.anticone(order[k] as int, sp as int) by {
        let x = order[k];
        assert(order.contains(x));
        assert(ms.contains(x));
        let j = choose|j: int| 0 <= j < ms.len() && ms[j] == x;
        assert(in_mergeset(s, p, sp as int, ms[j] as int));
        lemma_merged_in_anticone(s, p, sp, x as int);
        if chain_blue(s, sp as int, x as int) {
            assert(s.is_ancestor(x as int, sp as int));
        }
    }
    lemma_color_new_blues(s, cur, order, sp as int);
}

} // verus!
