//! Block admission: the consensus checks a new block must pass, in their
//! order, and its insertion into the DAG (tips, selected chain, difficulty
//! and body pruning).
use vstd::prelude::*;
use vstd::string::StringExecFns;
use crate::abs_sig::{decimal_digits, text_with_number, u64_to_decimal};
use crate::block::{calculate_block_size, spec_block_size, body_empty, body_stripped, spec_base_size, spec_block_hash, spec_issuance_ok, spec_merkle_root, Block};
use crate::chain::{sat_u128, spec_tip_score, sum_balances, sum_staked, ChainState};
use crate::daa::{daa_difficulty, parents_time};
use crate::economics::concat;
use crate::finality::{last_within, spec_past_median_time};
use crate::genesis::{ACCOUNT_PEER_TRANSFERS, FINALITY_DEPTH, MAX_BLOCK_BYTES, MAX_BLOCK_PARENTS, MAX_BLOCK_SIZE, MAX_FUTURE_DRIFT_MS, MAX_MERGESET_SIZE, TARGET_BLOCK_TIME_MS};
use crate::ghostdag::{hash_views, hashes_at, index_of, is_best_of, outranks, is_selected_chain, lemma_best_unique, mergeset_of, present_parent_indices, scores_fit, select_parent_idx, selected_chain, selected_tip, spec_coloring, try_color_idx, Coloring, DagNode, DagStore};
use crate::hash::spec_address_hash;
use crate::history::{history_pruned, law_pruning_keeps_tip_score};
use crate::pow::{spec_verify_pow, verify_pow};

verus! {

/// Two of the listed hashes are equal.
pub open spec fn has_dup(p: Seq<crate::hash::Hash>) -> bool {
    exists|i: int, j: int| 0 <= i < j < p.len() && #[trigger] p[i]@ == #[trigger] p[j]@
}

/// Every listed hash is stored.
pub open spec fn all_known(s: DagStore, p: Seq<crate::hash::Hash>) -> bool {
    forall|k: int| 0 <= k < p.len() ==> s.has(#[trigger] p[k]@)
}

/// The best (selected) block among the positions `p`.
pub open spec fn best_of(s: DagStore, p: Seq<usize>) -> usize {
    choose|i: usize| is_best_of(s, p, i)
}

/// The selected chain ending at `t`.
pub open spec fn chain_to(s: DagStore, t: usize) -> Seq<usize> {
    choose|c: Seq<usize>| is_selected_chain(s, c, t as int)
}

/// The finality point of a store with the given tips: the deepest block of
/// the selected tip's chain at least `FINALITY_DEPTH` blue levels below it.
pub open spec fn spec_finality_point(s: DagStore, tips: Seq<crate::hash::Hash>) -> Option<Seq<u8>> {
    let p = s.present_indices(tips);
    if p.len() == 0 {
        None
    } else {
        let t = best_of(s, p);
        if s.score(t as int) <= FINALITY_DEPTH {
            None
        } else {
            last_within(s, chain_to(s, t), s.score(t as int) - FINALITY_DEPTH)
        }
    }
}

/// Block `f` lies on the selected-parent chain from `x` (inclusive).
pub open spec fn on_chain(s: DagStore, x: int, f: int) -> bool
    decreases x,
{
    if x < 0 || x >= s.len() {
        false
    } else if x == f {
        true
    } else {
        match s.nodes@[x].selected_parent {
            Some(j) => if (j as int) < x { on_chain(s, j as int, f) } else { false },
            None => false,
        }
    }
}

/// The selected chain of the block at `sp` misses the stored finality point.
pub open spec fn finality_violated(s: DagStore, tips: Seq<crate::hash::Hash>, sp: int) -> bool {
    match spec_finality_point(s, tips) {
        Some(fh) => s.has(fh) && !on_chain(s, sp, s.idx_of(fh)),
        None => false,
    }
}

/// What [`Block::verify_issuance`] answers for a block it refuses.
pub open spec fn issuance_error(b: Block) -> Seq<char> {
    if b.creator_pubkey@.len() != crate::crypto::PQ_PUBLIC_KEY_SIZE {
        "Missing or malformed issuer public key"@
    } else if b.miner@ != spec_address_hash(b.creator_pubkey@) {
        "miner / reward address does not match issuer public key"@
    } else {
        "Invalid birth certificate"@
    }
}

/// `now` plus the allowed clock drift, saturating.
pub open spec fn drift_limit(now: u64) -> int {
    if now + MAX_FUTURE_DRIFT_MS <= u64::MAX { now + MAX_FUTURE_DRIFT_MS } else { u64::MAX as int }
}

/// Why `s` refuses block `b` at clock reading `now`, the checks taken in
/// order; `None` when it is admitted.
pub open spec fn block_error(s: ChainState, b: Block, now: u64) -> Option<Seq<char>> {
    let st = s.store;
    let p = st.present_indices(b.parents@);
    let sp = best_of(st, p);
    if st.has(spec_block_hash(b)) {
        Some("Block already known"@)
    } else if spec_base_size(b) > MAX_BLOCK_SIZE {
        Some("Block base exceeds 22KB limit"@)
    } else if spec_block_size(b) > MAX_BLOCK_BYTES {
        Some("Block (with witness) exceeds total size limit"@)
    } else if b.parents@.len() == 0 {
        Some("Block has no parents"@)
    } else if b.parents@.len() > MAX_BLOCK_PARENTS {
        Some("Too many parents: "@ + decimal_digits(b.parents@.len()) + " exceeds cap "@ + decimal_digits(MAX_BLOCK_PARENTS as nat))
    } else if has_dup(b.parents@) {
        Some("Duplicate parent in block"@)
    } else if !all_known(st, b.parents@) {
        Some("Unknown parent block"@)
    } else if finality_violated(st, s.tips@, sp as int) {
        Some("Finality violation: block's selected chain does not include the finality point"@)
    } else if b.difficulty != daa_difficulty(st, s.blocks@, s.lab_easy_pow, s.minted_supply, b.parents@) {
        Some("Wrong difficulty: block's past requires "@ + decimal_digits(daa_difficulty(st, s.blocks@, s.lab_easy_pow, s.minted_supply, b.parents@) as nat)
            + ", block claims "@ + decimal_digits(b.difficulty as nat))
    } else if !spec_verify_pow(spec_block_hash(b), b.difficulty) {
        Some("Invalid proof of work"@)
    } else if b.stark_proof@.len() == 0 || b.birth_certificate.signature@.len() == 0 {
        Some("Header-only / empty-witness blocks are not consensus-admissible"@)
    } else if b.merkle_root@ != spec_merkle_root(b) {
        Some("merkle_root does not commit to the block's transactions"@)
    } else if b.timestamp < parents_time(st, s.blocks@, p) {
        Some("Block timestamp predates its parents"@)
    } else if b.timestamp <= spec_past_median_time(st, s.blocks@, st.hash_of(sp as int)) {
        Some("Block timestamp "@ + decimal_digits(b.timestamp as nat) + " not beyond past median time "@
            + decimal_digits(spec_past_median_time(st, s.blocks@, st.hash_of(sp as int)) as nat))
    } else if b.timestamp > drift_limit(now) {
        Some("Block timestamp too far in the future"@)
    } else if !spec_issuance_ok(b) {
        Some(issuance_error(b))
    } else if !ACCOUNT_PEER_TRANSFERS && b.transparent_txs@.len() > 0 {
        Some("Account peer transfers disabled (v27); use UTXO for value moves"@)
    } else if mergeset_of(st, p, sp as int).len() > MAX_MERGESET_SIZE {
        Some("Mergeset too large: "@ + decimal_digits(mergeset_of(st, p, sp as int).len()) + " blocks exceeds cap "@
            + decimal_digits(MAX_MERGESET_SIZE as nat))
    } else {
        None
    }
}

/// The first refusal among the parents from position `k` on: a parent that
/// repeats an earlier one, or one that is not stored.
pub open spec fn parent_error(s: DagStore, p: Seq<crate::hash::Hash>, k: int) -> Option<Seq<char>>
    decreases p.len() - k,
{
    if k < 0 || k >= p.len() {
        None
    } else if exists|i: int| 0 <= i < k && #[trigger] p[i]@ == p[k]@ {
        Some("Duplicate parent in block"@)
    } else if !s.has(p[k]@) {
        Some("Unknown parent block"@)
    } else {
        parent_error(s, p, k + 1)
    }
}

/// Why the header gate refuses `b`, the checks taken in order; `None` when
/// it passes.
pub open spec fn precheck_error(s: ChainState, b: Block) -> Option<Seq<char>> {
    let st = s.store;
    if st.has(spec_block_hash(b)) {
        Some("Block already known"@)
    } else if b.parents@.len() == 0 {
        Some("Block has no parents"@)
    } else if b.parents@.len() > MAX_BLOCK_PARENTS {
        Some("Too many parents"@)
    } else if parent_error(st, b.parents@, 0) is Some {
        parent_error(st, b.parents@, 0)
    } else if b.difficulty != daa_difficulty(st, s.blocks@, s.lab_easy_pow, s.minted_supply, b.parents@) {
        Some("Wrong difficulty"@)
    } else if !spec_verify_pow(spec_block_hash(b), b.difficulty) {
        Some("Invalid proof of work"@)
    } else {
        None
    }
}

/// The first refusal of the cheap full-block gate, if any: the header gate
/// behind the two size caps, then the witnesses' presence.
pub open spec fn block_precheck_error(s: ChainState, b: Block) -> Option<Seq<char>> {
    if s.store.has(spec_block_hash(b)) {
        Some("Block already known"@)
    } else if spec_base_size(b) > MAX_BLOCK_SIZE {
        Some("Block base exceeds 22KB limit"@)
    } else if spec_block_size(b) > MAX_BLOCK_BYTES {
        Some("Block (with witness) exceeds total size limit"@)
    } else if precheck_error(s, b) is Some {
        precheck_error(s, b)
    } else if b.stark_proof@.len() == 0 || b.birth_certificate.signature@.len() == 0 {
        Some("Header-only / empty-witness blocks are not consensus-admissible"@)
    } else {
        None
    }
}

/// The tips that are not among `parents`, in order.
pub open spec fn tips_after(tips: Seq<crate::hash::Hash>, parents: Seq<crate::hash::Hash>) -> Seq<crate::hash::Hash>
    decreases tips.len(),
{
    if tips.len() == 0 {
        Seq::empty()
    } else {
        let rest = tips_after(tips.drop_last(), parents);
        if hash_views(parents).contains(tips.last()@) {
            rest
        } else {
            rest.push(tips.last())
        }
    }
}

/// `post` is `pre` with the bodies of blocks buried past the finality depth
/// below the selected tip removed (never on an archival node).
pub open spec fn bodies_pruned(s: DagStore, tips: Seq<crate::hash::Hash>, archival: bool, pre: Seq<Block>, post: Seq<Block>) -> bool {
    &&& post.len() == pre.len()
    &&& forall|i: int| 0 <= i < pre.len() ==> {
        let buried = !archival && spec_tip_score(s, tips) > FINALITY_DEPTH
            && s.score(i) <= spec_tip_score(s, tips) - FINALITY_DEPTH
            && !body_empty(pre[i]);
        if buried {
            body_stripped(pre[i], #[trigger] post[i])
        } else {
            post[i] == pre[i]
        }
    }
}

/// The store `post` is `pre` with one more block: `b`, with parents `p`,
/// selected parent `sp` and its GHOSTDAG coloring.
pub open spec fn store_extended(pre: DagStore, post: DagStore, b: Block, p: Seq<usize>, sp: usize) -> bool {
    let c = spec_coloring(pre, p, sp);
    let n = post.nodes@[pre.len()];
    &&& post.len() == pre.len() + 1
    &&& forall|i: int| 0 <= i < pre.len() ==> #[trigger] post.nodes@[i] == pre.nodes@[i]
    &&& n.hash@ == spec_block_hash(b)
    &&& n.parents@ == p
    &&& n.selected_parent == Some(sp)
    &&& n.blues@ == c.0
    &&& n.reds@ == c.1
    &&& n.blue_score == pre.score(sp as int) + c.0.len()
}

/// The positions found for stored hashes are positions of the store.
pub proof fn lemma_present_bounded(s: DagStore, ps: Seq<crate::hash::Hash>)
    ensures
        forall|k: int| 0 <= k < s.present_indices(ps).len() ==> (#[trigger] s.present_indices(ps)[k]) < s.len(),
    decreases ps.len(),
{
    if ps.len() > 0 {
        lemma_present_bounded(s, ps.drop_last());
        let rest = s.present_indices(ps.drop_last());
        if s.has(ps.last()@) {
            let i = s.idx_of(ps.last()@);
            assert forall|k: int| 0 <= k < s.present_indices(ps).len() implies (#[trigger] s.present_indices(ps)[k]) < s.len() by {
                if k < rest.len() {
                    assert(s.present_indices(ps)[k] == rest[k]);
                }
            }
        }
    }
}

/// Two selected chains ending at the same block are equal.
pub proof fn lemma_selected_chain_unique(s: DagStore, c1: Seq<usize>, c2: Seq<usize>, t: int)
    requires
        is_selected_chain(s, c1, t),
        is_selected_chain(s, c2, t),
    ensures
        c1 == c2,
    decreases c1.len(),
{
    let l1 = c1.len() as int;
    let l2 = c2.len() as int;
    if l1 == 1 {
        if l2 > 1 {
            assert(s.nodes@[c2[l2 - 1] as int].selected_parent == Some(c2[l2 - 2]));
        }
        assert(c1 =~= c2);
    } else {
        assert(s.nodes@[c1[l1 - 1] as int].selected_parent == Some(c1[l1 - 2]));
        if l2 == 1 {
            assert(false);
        }
        assert(s.nodes@[c2[l2 - 1] as int].selected_parent == Some(c2[l2 - 2]));
        let d1 = c1.drop_last();
        let d2 = c2.drop_last();
        let u = c1[l1 - 2] as int;
        assert forall|q: int| 0 < q < d1.len() implies s.nodes@[#[trigger] d1[q] as int].selected_parent == Some(d1[q - 1]) by {
            assert(d1[q] == c1[q] && d1[q - 1] == c1[q - 1]);
        }
        assert forall|q: int| 0 < q < d2.len() implies s.nodes@[#[trigger] d2[q] as int].selected_parent == Some(d2[q - 1]) by {
            assert(d2[q] == c2[q] && d2[q - 1] == c2[q - 1]);
        }
        assert forall|q: int| 0 <= q < d1.len() implies (#[trigger] d1[q]) < s.len() by {
            assert(d1[q] == c1[q]);
        }
        assert forall|q: int| 0 <= q < d2.len() implies (#[trigger] d2[q]) < s.len() by {
            assert(d2[q] == c2[q]);
        }
        assert(is_selected_chain(s, d1, u));
        assert(is_selected_chain(s, d2, u));
        lemma_selected_chain_unique(s, d1, d2, u);
        assert(c1 =~= c2) by {
            assert forall|q: int| 0 <= q < l1 implies c1[q] == c2[q] by {
                if q < l1 - 1 {
                    assert(d1[q] == c1[q] && d2[q] == c2[q]);
                }
            }
        }
    }
}

/// Each position found for the listed hashes is the position of one of them.
pub proof fn lemma_present_from(s: DagStore, ps: Seq<crate::hash::Hash>)
    ensures
        forall|i: int| 0 <= i < s.present_indices(ps).len() ==> exists|k: int| 0 <= k < ps.len() && s.has(ps[k]@)
            && #[trigger] s.present_indices(ps)[i] == s.idx_of(ps[k]@) as usize,
    decreases ps.len(),
{
    if ps.len() > 0 {
        let d = ps.drop_last();
        lemma_present_from(s, d);
        let rest = s.present_indices(d);
        if s.has(ps.last()@) {
            assert(s.present_indices(ps) == rest.push(s.idx_of(ps.last()@) as usize));
        } else {
            assert(s.present_indices(ps) == rest);
        }
        assert forall|i: int| 0 <= i < s.present_indices(ps).len() implies exists|k: int| 0 <= k < ps.len() && s.has(ps[k]@)
            && #[trigger] s.present_indices(ps)[i] == s.idx_of(ps[k]@) as usize by {
            if i < rest.len() {
                assert(s.present_indices(ps)[i] == rest[i]);
                let k = choose|k: int| 0 <= k < d.len() && s.has(d[k]@) && rest[i] == s.idx_of(d[k]@) as usize;
                assert(ps[k] == d[k]);
            } else {
                let kl = ps.len() - 1;
                assert(ps[kl] == ps.last());
                assert(s.has(ps[kl]@) && s.present_indices(ps)[i] == s.idx_of(ps[kl]@) as usize);
            }
        }
    }
}

/// A stored listed hash has its position among the positions found.
pub proof fn lemma_present_has(s: DagStore, ps: Seq<crate::hash::Hash>, k: int)
    requires
        0 <= k < ps.len(),
        s.has(ps[k]@),
    ensures
        s.present_indices(ps).contains(s.idx_of(ps[k]@) as usize),
    decreases ps.len(),
{
    let d = ps.drop_last();
    let rest = s.present_indices(d);
    if k < ps.len() - 1 {
        assert(d[k] == ps[k]);
        lemma_present_has(s, d, k);
        let i = choose|i: int| 0 <= i < rest.len() && rest[i] == s.idx_of(ps[k]@) as usize;
        assert(s.present_indices(ps)[i] == rest[i]);
    } else {
        assert(ps.last() == ps[k]);
        assert(s.present_indices(ps) == rest.push(s.idx_of(ps[k]@) as usize));
        assert(s.present_indices(ps)[rest.len() as int] == s.idx_of(ps[k]@) as usize);
    }
}

/// A tip that is not a parent stays among the tips.
proof fn lemma_tips_after_keeps(tips: Seq<crate::hash::Hash>, parents: Seq<crate::hash::Hash>, k: int)
    requires
        0 <= k < tips.len(),
        !hash_views(parents).contains(tips[k]@),
    ensures
        exists|j: int| 0 <= j < tips_after(tips, parents).len() && #[trigger] tips_after(tips, parents)[j]@ == tips[k]@,
    decreases tips.len(),
{
    let d = tips.drop_last();
    let rest = tips_after(d, parents);
    if k < tips.len() - 1 {
        assert(d[k] == tips[k]);
        lemma_tips_after_keeps(d, parents, k);
        let j = choose|j: int| 0 <= j < rest.len() && #[trigger] rest[j]@ == tips[k]@;
        assert(tips_after(tips, parents)[j] == rest[j]);
    } else {
        assert(tips.last() == tips[k]);
        assert(tips_after(tips, parents)[rest.len() as int] == tips[k]);
    }
}

/// The best of some positions scores at least as much as each of them.
pub proof fn lemma_best_scores(s: DagStore, p: Seq<usize>, t: usize, x: usize)
    requires
        is_best_of(s, p, t),
        p.contains(x),
    ensures
        s.score(x as int) <= s.score(t as int),
{
    let k = choose|k: int| 0 <= k < p.len() && p[k] == x;
    assert(!outranks(s, p[k] as int, t as int));
}

/// Adding a block never lowers the selected tip's blue score.
proof fn lemma_tip_score_grows(st: DagStore, fs: DagStore, b: Block, old_tips: Seq<crate::hash::Hash>,
    new_tips: Seq<crate::hash::Hash>, t_old: usize, t_new: usize)
    requires
        st.wf(),
        fs.wf(),
        st.len() < usize::MAX,
        b.parents@.len() > 0,
        all_known(st, b.parents@),
        is_best_of(st, st.present_indices(b.parents@), best_of(st, st.present_indices(b.parents@))),
        store_extended(st, fs, b, st.present_indices(b.parents@), best_of(st, st.present_indices(b.parents@))),
        hash_views(new_tips) == hash_views(tips_after(old_tips, b.parents@)).push(spec_block_hash(b)),
        st.present_indices(old_tips).len() > 0 ==> is_best_of(st, st.present_indices(old_tips), t_old),
        is_best_of(fs, fs.present_indices(new_tips), t_new),
    ensures
        spec_tip_score(fs, new_tips) >= spec_tip_score(st, old_tips),
{
    let pn = fs.present_indices(new_tips);
    lemma_present_bounded(fs, new_tips);
    let cn = choose|i: usize| is_best_of(fs, pn, i);
    lemma_best_unique(fs, pn, cn, t_new);
    assert(spec_tip_score(fs, new_tips) == fs.score(t_new as int));
    let po = st.present_indices(old_tips);
    if po.len() > 0 {
        lemma_present_bounded(st, old_tips);
        let co = choose|i: usize| is_best_of(st, po, i);
        lemma_best_unique(st, po, co, t_old);
        assert(spec_tip_score(st, old_tips) == st.score(t_old as int));
        lemma_present_from(st, old_tips);
        let ko = choose|ko: int| 0 <= ko < po.len() && po[ko] == t_old;
        let k = choose|k: int| 0 <= k < old_tips.len() && st.has(old_tips[k]@) && #[trigger] po[ko] == st.idx_of(old_tips[k]@) as usize;
        let hk = old_tips[k]@;
        let n0 = st.len();
        let ta0 = tips_after(old_tips, b.parents@);
        assert(hash_views(new_tips).len() == new_tips.len());
        assert(hash_views(ta0).len() == ta0.len());
        let nl = new_tips.len() - 1;
        assert(nl == hash_views(ta0).len());
        assert(hash_views(new_tips)[nl] == hash_views(ta0).push(spec_block_hash(b))[nl]);
        assert(hash_views(new_tips)[nl] == new_tips[nl]@);
        assert(hash_views(new_tips)[nl] == spec_block_hash(b));
        assert(fs.hash_of(n0) == spec_block_hash(b));
        fs.lemma_idx_of_unique(new_tips[nl]@, n0);
        if hash_views(b.parents@).contains(hk) {
            let pp = st.present_indices(b.parents@);
            let sp = best_of(st, pp);
            let j = choose|j: int| 0 <= j < hash_views(b.parents@).len() && hash_views(b.parents@)[j] == hk;
            assert(b.parents@[j]@ == hk);
            lemma_present_has(st, b.parents@, j);
            lemma_best_scores(st, pp, sp, t_old);
            lemma_present_has(fs, new_tips, nl);
            lemma_best_scores(fs, pn, t_new, n0 as usize);
            assert(fs.score(n0) == st.score(sp as int) + spec_coloring(st, pp, sp).0.len());
        } else {
            lemma_tips_after_keeps(old_tips, b.parents@, k);
            let ta = tips_after(old_tips, b.parents@);
            let j = choose|j: int| 0 <= j < ta.len() && #[trigger] ta[j]@ == hk;
            assert(hash_views(ta)[j] == hk);
            assert(hash_views(new_tips)[j] == hash_views(ta).push(spec_block_hash(b))[j]);
            assert(hash_views(new_tips)[j] == hk);
            assert(hash_views(new_tips)[j] == new_tips[j]@);
            assert(new_tips[j]@ == hk);
            assert(po[ko] < st.len());
            assert(st.hash_of(st.idx_of(hk)) == hk);
            assert(0 <= st.idx_of(hk) < st.len());
            assert(t_old as int == st.idx_of(hk));
            assert(fs.nodes@[t_old as int] == st.nodes@[t_old as int]);
            assert(fs.hash_of(t_old as int) == hk);
            fs.lemma_idx_of_unique(hk, t_old as int);
            lemma_present_has(fs, new_tips, j);
            lemma_best_scores(fs, pn, t_new, t_old);
        }
    }
}

/// Whether two of the hashes are equal.
fn has_duplicate_hash(p: &Vec<crate::hash::Hash>) -> (r: bool)
    ensures
        r == has_dup(p@),
{
    let mut j: usize = 0;
    while j < p.len()
        invariant
            j <= p@.len(),
            forall|a: int, b: int| 0 <= a < b < j ==> #[trigger] p@[a]@ != #[trigger] p@[b]@,
        decreases p@.len() - j,
    {
        let mut i: usize = 0;
        while i < j
            invariant
                i <= j < p@.len(),
                forall|a: int, b: int| 0 <= a < b < j ==> #[trigger] p@[a]@ != #[trigger] p@[b]@,
                forall|a: int| 0 <= a < i ==> #[trigger] p@[a]@ != p@[j as int]@,
            decreases j - i,
        {
            if p[i].equals(&p[j]) {
                return true;
            }
            i = i + 1;
        }
        j = j + 1;
    }
    false
}

/// Whether every hash is stored.
fn all_stored(s: &DagStore, p: &Vec<crate::hash::Hash>) -> (r: bool)
    requires
        s.wf(),
    ensures
        r == all_known(*s, p@),
{
    let mut k: usize = 0;
    while k < p.len()
        invariant
            k <= p@.len(),
            s.wf(),
            forall|q: int| 0 <= q < k ==> s.has(#[trigger] p@[q]@),
        decreases p@.len() - k,
    {
        match index_of(s, &p[k]) {
            Some(i) => {
                proof {
                    s.lemma_idx_of_unique(p@[k as int]@, i as int);
                }
            },
            None => {
                proof {
                    assert(!s.has(p@[k as int]@));
                }
                return false;
            },
        }
        k = k + 1;
    }
    true
}

/// Whether `h` is one of the hashes.
fn in_hashes(v: &Vec<crate::hash::Hash>, h: &crate::hash::Hash) -> (r: bool)
    ensures
        r == hash_views(v@).contains(h@),
{
    let mut k: usize = 0;
    while k < v.len()
        invariant
            k <= v@.len(),
            forall|q: int| 0 <= q < k ==> v@[q]@ != h@,
        decreases v@.len() - k,
    {
        if v[k].equals(h) {
            proof {
                assert(hash_views(v@)[k as int] == h@);
            }
            return true;
        }
        k = k + 1;
    }
    proof {
        if hash_views(v@).contains(h@) {
            let q = choose|q: int| 0 <= q < hash_views(v@).len() && hash_views(v@)[q] == h@;
            assert(v@[q]@ == h@);
        }
    }
    false
}

/// Whether block `f` lies on the selected-parent chain from `x`.
fn on_selected_chain(s: &DagStore, x: usize, f: usize) -> (r: bool)
    requires
        s.wf(),
        x < s.len(),
    ensures
        r == on_chain(*s, x as int, f as int),
{
    let mut cur = x;
    loop
        invariant
            s.wf(),
            cur < s.len(),
            on_chain(*s, x as int, f as int) == on_chain(*s, cur as int, f as int),
        decreases cur,
    {
        if cur == f {
            return true;
        }
        match s.nodes[cur].selected_parent {
            Some(j) => {
                proof {
                    assert(j < cur);
                }
                cur = j;
            },
            None => {
                return false;
            },
        }
    }
}

/// `post` is `pre` with `block` admitted: the block stored with its
/// GHOSTDAG data, replacing its parents among the tips, the selected chain
/// rebuilt, the cached difficulty recomputed and bodies pruned; the tip
/// score does not fall and nothing else changes.
pub open spec fn block_admitted(pre: ChainState, block: Block, post: ChainState) -> bool {
    let st = pre.store;
    let p = st.present_indices(block.parents@);
    let sp = best_of(st, p);
    let fs = post.store;
    &&& store_extended(st, fs, block, p, sp)
    &&& hash_views(post.tips@) == hash_views(tips_after(pre.tips@, block.parents@)).push(spec_block_hash(block))
    &&& exists|t: usize, c: Seq<usize>| #[trigger] is_best_of(fs, fs.present_indices(post.tips@), t)
        && #[trigger] is_selected_chain(fs, c, t as int)
        && hash_views(post.main_chain@) == hashes_at(fs, c)
    &&& post.difficulty == daa_difficulty(fs, pre.blocks@.push(block), pre.lab_easy_pow, pre.minted_supply, post.tips@)
    &&& bodies_pruned(fs, post.tips@, pre.archival, pre.blocks@.push(block), post.blocks@)
    &&& spec_tip_score(fs, post.tips@) >= spec_tip_score(st, pre.tips@)
    &&& post == (ChainState {
        store: post.store,
        blocks: post.blocks,
        tips: post.tips,
        main_chain: post.main_chain,
        difficulty: post.difficulty,
        ..pre
    })
}

impl ChainState {
    /// Whether the selected chain of the stored block at `sp` misses the
    /// finality point.
    fn misses_finality_point(&self, sp: usize) -> (r: bool)
        requires
            self.wf(),
            sp < self.store.len(),
        ensures
            r == finality_violated(self.store, self.tips@, sp as int),
    {
        let ghost st = self.store;
        let fp = self.finality_point();
        let pt = present_parent_indices(&self.store, self.tips.as_slice());
        if pt.len() > 0 {
            let t = select_parent_idx(&self.store, &pt);
            proof {
                let b = best_of(st, pt@);
                lemma_best_unique(st, pt@, b, t);
                if st.score(t as int) > FINALITY_DEPTH {
                    let c0 = choose|c: Seq<usize>| #[trigger] is_selected_chain(st, c, t as int)
                        && match fp {
                            Some(h) => last_within(st, c, st.score(t as int) - FINALITY_DEPTH) == Some(h@),
                            None => last_within(st, c, st.score(t as int) - FINALITY_DEPTH) is None,
                        };
                    lemma_selected_chain_unique(st, c0, chain_to(st, t), t as int);
                }
            }
        } else {
            proof {
                st.lemma_present_empty(self.tips@);
            }
        }
        proof {
            assert(spec_finality_point(st, self.tips@) == match fp {
                Some(h) => Some(h@),
                None => None::<Seq<u8>>,
            });
        }
        match fp {
            None => false,
            Some(fh) => match index_of(&self.store, &fh) {
                None => false,
                Some(fi) => {
                    proof {
                        st.lemma_idx_of_unique(fh@, fi as int);
                    }
                    !on_selected_chain(&self.store, sp, fi)
                },
            },
        }
    }

    /// Latest timestamp among the stored blocks at positions `p`.
    fn latest_time(&self, p: &Vec<usize>) -> (r: u64)
        requires
            self.wf(),
            forall|q: int| 0 <= q < p@.len() ==> (#[trigger] p@[q]) < self.store.len(),
        ensures
            r == parents_time(self.store, self.blocks@, p@),
    {
        let mut ts: u64 = crate::genesis::GENESIS_TIMESTAMP_MS;
        let mut k: usize = 0;
        while k < p.len()
            invariant
                k <= p@.len(),
                self.wf(),
                forall|q: int| 0 <= q < p@.len() ==> (#[trigger] p@[q]) < self.store.len(),
                ts == parents_time(self.store, self.blocks@, p@.take(k as int)),
            decreases p@.len() - k,
        {
            proof {
                assert(p@.take(k + 1).drop_last() =~= p@.take(k as int));
                assert(p@.take(k + 1).last() == p@[k as int]);
            }
            let t = self.blocks[p[k]].timestamp;
            if k == 0 || t > ts {
                ts = t;
            }
            k = k + 1;
        }
        proof {
            assert(p@.take(p@.len() as int) =~= p@);
        }
        ts
    }
    /// Run the admission checks on `block`, in order; on success, the
    /// positions of its parents and its GHOSTDAG coloring.
    fn check_block(&self, block: &Block, now: u64) -> (r: Result<(Vec<usize>, Coloring), String>)
        requires
            self.wf(),
            scores_fit(self.store),
        ensures
            r matches Err(e) ==> block_error(*self, *block, now) == Some(e@),
            r is Ok ==> block_error(*self, *block, now) is None,
            r matches Ok((p, c)) ==> {
                &&& p@ == self.store.present_indices(block.parents@)
                &&& p@.len() > 0
                &&& forall|k: int| 0 <= k < p@.len() ==> (#[trigger] p@[k]) < self.store.len()
                &&& is_best_of(self.store, p@, c.selected_parent)
                &&& c.selected_parent == best_of(self.store, p@)
                &&& (c.blues@, c.reds@) == spec_coloring(self.store, p@, c.selected_parent)
                &&& c.blue_score == self.store.score(c.selected_parent as int) + c.blues@.len()
                &&& forall|k: int| 0 <= k < c.blues@.len() ==> (#[trigger] c.blues@[k]) < self.store.len()
                &&& forall|k: int| 0 <= k < c.reds@.len() ==> (#[trigger] c.reds@[k]) < self.store.len()
            },
    {
        let ghost st = self.store;
        let h = block.hash();
        match index_of(&self.store, &h) {
            Some(i) => {
                proof {
                    st.lemma_idx_of_unique(h@, i as int);
                }
                return Err(String::from_str("Block already known"));
            },
            None => {
                proof {
                    assert(!st.has(h@));
                }
            },
        }
        if !block.verify_size() {
            return Err(String::from_str("Block base exceeds 22KB limit"));
        }
        if calculate_block_size(&block) > MAX_BLOCK_BYTES {
            return Err(String::from_str("Block (with witness) exceeds total size limit"));
        }
        if block.parents.len() == 0 {
            return Err(String::from_str("Block has no parents"));
        }
        if block.parents.len() > MAX_BLOCK_PARENTS {
            let a = text_with_number("Too many parents: ", block.parents.len() as u64);
            let b = concat(a.as_str(), " exceeds cap ");
            let c = u64_to_decimal(MAX_BLOCK_PARENTS as u64);
            return Err(concat(b.as_str(), c.as_str()));
        }
        if has_duplicate_hash(&block.parents) {
            return Err(String::from_str("Duplicate parent in block"));
        }
        if !all_stored(&self.store, &block.parents) {
            return Err(String::from_str("Unknown parent block"));
        }
        let p = present_parent_indices(&self.store, block.parents.as_slice());
        proof {
            let ps = block.parents@;
            assert(st.has(ps[ps.len() - 1]@));
            assert(ps.last() == ps[ps.len() - 1]);
            assert(p@.len() > 0);
        }
        let sp = select_parent_idx(&self.store, &p);
        proof {
            let b = best_of(st, p@);
            lemma_best_unique(st, p@, b, sp);
        }
        if self.misses_finality_point(sp) {
            return Err(String::from_str("Finality violation: block's selected chain does not include the finality point"));
        }
        let required = self.expected_difficulty_at(block.parents.as_slice(), block.timestamp);
        if block.difficulty != required {
            let a = text_with_number("Wrong difficulty: block's past requires ", required);
            let b = concat(a.as_str(), ", block claims ");
            let c = u64_to_decimal(block.difficulty);
            return Err(concat(b.as_str(), c.as_str()));
        }
        if !verify_pow(&h, block.difficulty) {
            return Err(String::from_str("Invalid proof of work"));
        }
        if block.stark_proof.len() == 0 || block.birth_certificate.signature.len() == 0 {
            return Err(String::from_str("Header-only / empty-witness blocks are not consensus-admissible"));
        }
        let root = block.merkle_root();
        if !block.merkle_root.equals(&root) {
            return Err(String::from_str("merkle_root does not commit to the block's transactions"));
        }
        let latest = self.latest_time(&p);
        if block.timestamp < latest {
            return Err(String::from_str("Block timestamp predates its parents"));
        }
        let sp_hash = self.store.nodes[sp].hash;
        let mtp = self.past_median_time(&sp_hash);
        if block.timestamp <= mtp {
            let a = text_with_number("Block timestamp ", block.timestamp);
            let b = concat(a.as_str(), " not beyond past median time ");
            let c = u64_to_decimal(mtp);
            return Err(concat(b.as_str(), c.as_str()));
        }
        if block.timestamp > now.saturating_add(MAX_FUTURE_DRIFT_MS) {
            return Err(String::from_str("Block timestamp too far in the future"));
        }
        match block.verify_issuance() {
            Err(e) => {
                return Err(e);
            },
            Ok(()) => {},
        }
        if !ACCOUNT_PEER_TRANSFERS && block.transparent_txs.len() > 0 {
            return Err(String::from_str("Account peer transfers disabled (v27); use UTXO for value moves"));
        }
        match try_color_idx(&self.store, &p, MAX_MERGESET_SIZE) {
            Ok(c) => {
                proof {
                    lemma_best_unique(st, p@, c.selected_parent, sp);
                }
                Ok((p, c))
            },
            Err(m) => {
                proof {
                    let sp0 = choose|x: usize| #[trigger] is_best_of(st, p@, x) && m == mergeset_of(st, p@, x as int).len()
                        && m > MAX_MERGESET_SIZE;
                    lemma_best_unique(st, p@, sp0, sp);
                }
                let a = text_with_number("Mergeset too large: ", m as u64);
                let b = concat(a.as_str(), " blocks exceeds cap ");
                let c = u64_to_decimal(MAX_MERGESET_SIZE as u64);
                Err(concat(b.as_str(), c.as_str()))
            },
        }
    }
    /// The tips without the given parents, in order.
    fn tips_without(tips: &Vec<crate::hash::Hash>, parents: &Vec<crate::hash::Hash>) -> (r: Vec<crate::hash::Hash>)
        ensures
            r@ == tips_after(tips@, parents@),
    {
        let mut out: Vec<crate::hash::Hash> = Vec::new();
        let mut k: usize = 0;
        while k < tips.len()
            invariant
                k <= tips@.len(),
                out@ == tips_after(tips@.take(k as int), parents@),
            decreases tips@.len() - k,
        {
            proof {
                assert(tips@.take(k + 1).drop_last() =~= tips@.take(k as int));
                assert(tips@.take(k + 1).last() == tips@[k as int]);
            }
            if !in_hashes(parents, &tips[k]) {
                out.push(tips[k]);
            }
            k = k + 1;
        }
        proof {
            assert(tips@.take(tips@.len() as int) =~= tips@);
        }
        out
    }

    /// Admission proper, before history pruning.
    fn admit_block(&mut self, block: Block, now: u64) -> (r: Result<(), String>)
        requires
            old(self).wf(),
            scores_fit(old(self).store),
        ensures
            r matches Err(e) ==> block_error(*old(self), block, now) == Some(e@),
            r is Ok <==> block_error(*old(self), block, now) is None,
            r is Err ==> *final(self) == *old(self),
            final(self).wf(),
            r is Ok ==> block_admitted(*old(self), block, *final(self)),
    {
        let (p, c) = match self.check_block(&block, now) {
            Err(e) => {
                return Err(e);
            },
            Ok(x) => x,
        };
        let ghost pre = *self;
        let ghost st = self.store;
        let ghost gb = block;
        let old_present = present_parent_indices(&self.store, self.tips.as_slice());
        let ghost mut t_old: usize = 0;
        if old_present.len() > 0 {
            let t0 = select_parent_idx(&self.store, &old_present);
            proof {
                t_old = t0;
            }
        }
        let h = block.hash();
        let ts = block.timestamp;
        let remaining = Self::tips_without(&self.tips, &block.parents);
        let ghost gp = p@;
        let ghost c_sp = c.selected_parent;
        let node = DagNode {
            hash: h,
            parents: p,
            blue_score: c.blue_score,
            selected_parent: Some(c.selected_parent),
            blues: c.blues,
            reds: c.reds,
        };
        self.store.push_node(node);
        let n_after = self.store.nodes.len();
        proof {
            assert(st.len() + 1 == n_after);
        }
        self.blocks.push(block);
        let mut tips = remaining;
        tips.push(h);
        self.tips = tips;
        proof {
            let n0 = st.len();
            assert(self.store.hash_of(n0) == h@);
            assert(self.store.has(h@));
            assert forall|i: int| 0 <= i < self.blocks@.len() implies #[trigger] self.store.hash_of(i) == spec_block_hash(self.blocks@[i]) by {
                if i < n0 {
                    assert(self.store.nodes@[i] == st.nodes@[i]);
                    assert(self.blocks@[i] == pre.blocks@[i]);
                    assert(pre.store.hash_of(i) == spec_block_hash(pre.blocks@[i]));
                    assert(self.store.hash_of(i) == st.hash_of(i));
                } else {
                    assert(i == n0);
                    assert(self.blocks@[i] == gb);
                    assert(spec_block_hash(gb) == h@);
                }
            }
            assert(self.wf());
            assert(hash_views(self.tips@) =~= hash_views(tips_after(pre.tips@, gb.parents@)).push(spec_block_hash(gb)));
            assert(self.tips@.last() == h);
            assert(self.store.has(self.tips@[self.tips@.len() - 1]@));
        }
        match selected_tip(&self.store, self.tips.as_slice()) {
            Some(t) => {
                let chain = selected_chain(&self.store, &t);
                self.main_chain = chain;
                proof {
                    let fs = self.store;
                    let pt = fs.present_indices(self.tips@);
                    let i = choose|i: usize| #[trigger] is_best_of(fs, pt, i) && fs.hash_of(i as int) == t@;
                    lemma_present_bounded(fs, self.tips@);
                    let k = choose|k: int| 0 <= k < pt.len() && pt[k] == i;
                    assert(pt[k] < fs.len());
                    fs.lemma_idx_of_unique(t@, i as int);
                    let c = choose|c: Seq<usize>| #[trigger] is_selected_chain(fs, c, fs.idx_of(t@))
                        && hash_views(chain@) == hashes_at(fs, c);
                    assert(is_best_of(fs, pt, i) && is_selected_chain(fs, c, i as int));
                    assert(store_extended(st, fs, gb, gp, c_sp));
                    assert(st.len() < usize::MAX);
                    lemma_tip_score_grows(st, fs, gb, pre.tips@, self.tips@, t_old, i);
                }
            },
            None => {},
        }
        let d = self.expected_difficulty_at(self.tips.as_slice(), ts.saturating_add(TARGET_BLOCK_TIME_MS));
        self.difficulty = d;
        self.prune_bodies();
        Ok(())
    }
    /// Admit `block` at clock reading `now`. The checks, in order: not
    /// already stored; base size within the cap; full wire size (witness
    /// data included) within `MAX_BLOCK_BYTES`; at least one and at most
    /// `MAX_BLOCK_PARENTS` parents, none repeated, all stored; the selected
    /// parent's chain holds the finality point; the difficulty the DAA
    /// requires; proof of work; STARK proof and birth certificate present;
    /// `merkle_root` commits to the body; timestamp not before a parent's,
    /// beyond the selected parent's past median time and at most the drift
    /// ahead of `now`; the issuer's birth certificate; no account transfers;
    /// a mergeset within `MAX_MERGESET_SIZE`. A refused block leaves the
    /// state unchanged. An admitted block is stored with its GHOSTDAG data,
    /// replaces its parents among the tips, and the selected chain, the
    /// cached difficulty, body pruning and history pruning
    /// (`prune_history`) follow. Not done here: the STARK
    /// verification, the interlink and `state_root` commitments and the
    /// ledger replay, whose modules this crate does not hold; balances and
    /// the minted supply are left as they were.
    pub fn add_block(&mut self, block: Block, now: u64) -> (r: Result<(), String>)
        requires
            old(self).wf(),
            scores_fit(old(self).store),
        ensures
            r matches Err(e) ==> block_error(*old(self), block, now) == Some(e@),
            r is Ok <==> block_error(*old(self), block, now) is None,
            r is Err ==> *final(self) == *old(self),
            final(self).wf(),
            r is Ok ==> exists|mid: ChainState| #[trigger] block_admitted(*old(self), block, mid)
                && history_pruned(mid, *final(self)),
            r is Ok ==> spec_tip_score(final(self).store, final(self).tips@) >= spec_tip_score(old(self).store, old(self).tips@),
    {
        let ghost pre = *self;
        let ghost gb = block;
        let r = self.admit_block(block, now);
        if r.is_ok() {
            let ghost mid = *self;
            let n_mid = self.store.nodes.len();
            self.prune_history();
            proof {
                assert(mid.store.len() == n_mid);
                law_pruning_keeps_tip_score(mid, *self);
                assert(block_admitted(pre, gb, mid) && history_pruned(mid, *self));
            }
        }
        r
    }

    /// Cheap full-block gate before the expensive checks: not already
    /// stored; base size and full wire size within their caps; the header
    /// gate; STARK proof and birth certificate present. The STARK format and
    /// interlink checks are not done here (their modules are not part of
    /// this crate).
    pub fn precheck_block(&self, block: &Block) -> (r: Result<(), String>)
        requires
            self.wf(),
        ensures
            r matches Err(e) ==> block_precheck_error(*self, *block) == Some(e@),
            r is Ok <==> block_precheck_error(*self, *block) is None,
    {
        let h = block.hash();
        match index_of(&self.store, &h) {
            Some(i) => {
                proof {
                    self.store.lemma_idx_of_unique(h@, i as int);
                }
                return Err(String::from_str("Block already known"));
            },
            None => {},
        }
        if !block.verify_size() {
            return Err(String::from_str("Block base exceeds 22KB limit"));
        }
        if calculate_block_size(block) > MAX_BLOCK_BYTES {
            return Err(String::from_str("Block (with witness) exceeds total size limit"));
        }
        match self.precheck_header(block) {
            Err(e) => {
                return Err(e);
            },
            Ok(()) => {},
        }
        if block.stark_proof.len() == 0 || block.birth_certificate.signature.len() == 0 {
            return Err(String::from_str("Header-only / empty-witness blocks are not consensus-admissible"));
        }
        Ok(())
    }

    /// Cheap header gate for headers-first sync: not already stored; one to
    /// `MAX_BLOCK_PARENTS` parents, each new and stored; the DAA difficulty;
    /// proof of work. No witness is required. The interlink commitment is
    /// not checked here (its module is not part of this crate).
    pub fn precheck_header(&self, header: &Block) -> (r: Result<(), String>)
        requires
            self.wf(),
        ensures
            r matches Err(e) ==> precheck_error(*self, *header) == Some(e@),
            r is Ok <==> precheck_error(*self, *header) is None,
    {
        let ghost st = self.store;
        let h = header.hash();
        match index_of(&self.store, &h) {
            Some(i) => {
                proof {
                    st.lemma_idx_of_unique(h@, i as int);
                }
                return Err(String::from_str("Block already known"));
            },
            None => {
                proof {
                    assert(!st.has(h@));
                }
            },
        }
        if header.parents.len() == 0 {
            return Err(String::from_str("Block has no parents"));
        }
        if header.parents.len() > MAX_BLOCK_PARENTS {
            return Err(String::from_str("Too many parents"));
        }
        let ghost ps = header.parents@;
        let mut k: usize = 0;
        while k < header.parents.len()
            invariant
                k <= ps.len(),
                ps == header.parents@,
                0 < ps.len() <= MAX_BLOCK_PARENTS,
                h@ == spec_block_hash(*header),
                !st.has(h@),
                self.wf(),
                st == self.store,
                parent_error(st, ps, 0) == parent_error(st, ps, k as int),
            decreases ps.len() - k,
        {
            let mut i: usize = 0;
            while i < k
                invariant
                    i <= k < ps.len(),
                    ps == header.parents@,
                    0 < ps.len() <= MAX_BLOCK_PARENTS,
                    h@ == spec_block_hash(*header),
                    !st.has(h@),
                    self.wf(),
                    st == self.store,
                    parent_error(st, ps, 0) == parent_error(st, ps, k as int),
                    forall|x: int| 0 <= x < i ==> ps[x]@ != ps[k as int]@,
                decreases k - i,
            {
                if header.parents[i].equals(&header.parents[k]) {
                    proof {
                        assert(ps[i as int]@ == ps[k as int]@);
                    }
                    return Err(String::from_str("Duplicate parent in block"));
                }
                i = i + 1;
            }
            proof {
                assert(!(exists|x: int| 0 <= x < k && #[trigger] ps[x]@ == ps[k as int]@));
            }
            match index_of(&self.store, &header.parents[k]) {
                Some(j) => {
                    proof {
                        st.lemma_idx_of_unique(ps[k as int]@, j as int);
                    }
                },
                None => {
                    proof {
                        assert(!st.has(ps[k as int]@));
                    }
                    return Err(String::from_str("Unknown parent block"));
                },
            }
            k = k + 1;
        }
        let required = self.expected_difficulty_at(header.parents.as_slice(), header.timestamp);
        if header.difficulty != required {
            return Err(String::from_str("Wrong difficulty"));
        }
        if !verify_pow(&h, header.difficulty) {
            return Err(String::from_str("Invalid proof of work"));
        }
        Ok(())
    }
}

/// Supply accounting across an admitted block: the balances, stakes, burned
/// fees and minted supply are those before the block, so the supply identity
/// holds after the block exactly when it held before.
pub proof fn law_admission_keeps_supply(pre: ChainState, block: Block, mid: ChainState, post: ChainState)
    requires
        block_admitted(pre, block, mid),
        history_pruned(mid, post),
    ensures
        post.accounts == pre.accounts,
        post.staked == pre.staked,
        post.fees_burned == pre.fees_burned,
        post.minted_supply == pre.minted_supply,
        (sat_u128(sum_balances(post.accounts@) + sum_staked(post.staked@) + post.fees_burned) == post.minted_supply)
            == (sat_u128(sum_balances(pre.accounts@) + sum_staked(pre.staked@) + pre.fees_burned) == pre.minted_supply),
{
}

} // verus!
