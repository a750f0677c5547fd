//! The block template handed to miners: parents, difficulty and a body
//! trimmed to the base-size cap.
use vstd::prelude::*;
use crate::block::{default_block_version, VERSIONBITS_TOP_BITS, spec_base_size, spec_merkle_root, tx_wire_size, txs_wire_size, BirthCertificate, Block};
use crate::chain::{tx_views, ChainState};
use crate::daa::daa_difficulty;
use crate::genesis::{MAX_BLOCK_PARENTS, MAX_BLOCK_SIZE};
use crate::ghostdag::{index_of, DagStore};
use crate::pow::{be_value, lemma_lex_lt_is_numeric};
use crate::select::{nonces_below_max, spec_selection, sums_fit};
use crate::tx::{TransparentTx, TxView};

verus! {

/// The blue score by which a tip is ranked (0 for a tip that is not stored).
pub open spec fn tip_score_or_zero(s: DagStore, h: Seq<u8>) -> int {
    if s.has(h) { s.score(s.idx_of(h)) } else { 0 }
}

/// Tip `a` ranks before tip `b`: a higher blue score, ties broken by the
/// larger hash.
pub open spec fn tip_before(s: DagStore, a: Seq<u8>, b: Seq<u8>) -> bool {
    tip_score_or_zero(s, a) > tip_score_or_zero(s, b)
        || (tip_score_or_zero(s, a) == tip_score_or_zero(s, b) && be_value(a) > be_value(b))
}

/// Where tip `x` goes in `v` from position `p` on: before the first entry it
/// ranks before, else at the end.
pub open spec fn tip_insert_at(s: DagStore, v: Seq<crate::hash::Hash>, x: crate::hash::Hash, p: int) -> int
    decreases v.len() - p,
{
    if p >= v.len() {
        v.len() as int
    } else if tip_before(s, x@, v[p]@) {
        p
    } else {
        tip_insert_at(s, v, x, p + 1)
    }
}

/// The first `n` tips sorted by rank, highest first (a stable sort).
pub open spec fn tips_ranked(s: DagStore, tips: Seq<crate::hash::Hash>, n: int) -> Seq<crate::hash::Hash>
    decreases n,
{
    if n <= 0 {
        Seq::empty()
    } else {
        let r = tips_ranked(s, tips, n - 1);
        r.insert(tip_insert_at(s, r, tips[n - 1], 0), tips[n - 1])
    }
}

/// The parents of a template: the best `MAX_BLOCK_PARENTS` tips by rank.
pub open spec fn template_parents(s: DagStore, tips: Seq<crate::hash::Hash>) -> Seq<crate::hash::Hash> {
    let r = tips_ranked(s, tips, tips.len() as int);
    if r.len() <= MAX_BLOCK_PARENTS { r } else { r.take(MAX_BLOCK_PARENTS as int) }
}

/// Total wire size of a list of transfers.
pub open spec fn views_wire_size(v: Seq<TxView>) -> nat
    decreases v.len(),
{
    if v.len() == 0 { 0 } else { views_wire_size(v.drop_last()) + tx_wire_size(v.last()) }
}

/// Position of the first transfer with the lowest fee.
pub open spec fn first_cheapest(v: Seq<TxView>) -> int
    decreases v.len(),
{
    if v.len() <= 1 {
        0
    } else {
        let i = first_cheapest(v.drop_last());
        if v.last().fee < v[i].fee { v.len() - 1 } else { i }
    }
}

/// Drop the lowest-fee transfer until a body with `np` parents fits the
/// base-size cap, or none is left.
pub open spec fn trim_to_fit(np: nat, v: Seq<TxView>) -> Seq<TxView>
    decreases v.len(),
{
    if v.len() == 0 || 316 + 64 * np + views_wire_size(v) <= MAX_BLOCK_SIZE {
        v
    } else {
        proof {
            lemma_first_cheapest(v);
        }
        trim_to_fit(np, v.remove(first_cheapest(v)))
    }
}

/// The first cheapest position lies within a nonempty list.
pub proof fn lemma_first_cheapest(v: Seq<TxView>)
    requires
        v.len() > 0,
    ensures
        0 <= first_cheapest(v) < v.len(),
    decreases v.len(),
{
    if v.len() > 1 {
        lemma_first_cheapest(v.drop_last());
    }
}

proof fn lemma_views_size(txs: Seq<TransparentTx>)
    ensures
        txs_wire_size(txs) == views_wire_size(tx_views(txs)),
    decreases txs.len(),
{
    if txs.len() > 0 {
        lemma_views_size(txs.drop_last());
        assert(tx_views(txs).drop_last() =~= tx_views(txs.drop_last()));
    }
}

/// Whether tip `a` ranks before tip `b`.
fn tip_rank_before(s: &DagStore, a: &crate::hash::Hash, b: &crate::hash::Hash) -> (r: bool)
    requires
        s.wf(),
    ensures
        r == tip_before(*s, a@, b@),
{
    let sa: u64 = match index_of(s, a) {
        Some(i) => {
            proof {
                s.lemma_idx_of_unique(a@, i as int);
            }
            s.nodes[i].blue_score
        },
        None => 0,
    };
    let sb: u64 = match index_of(s, b) {
        Some(i) => {
            proof {
                s.lemma_idx_of_unique(b@, i as int);
            }
            s.nodes[i].blue_score
        },
        None => 0,
    };
    proof {
        lemma_lex_lt_is_numeric(b@, a@);
    }
    sa > sb || (sa == sb && b.less_than(a))
}

/// Position of the first transfer with the lowest fee.
fn cheapest_index(txs: &Vec<TransparentTx>) -> (r: usize)
    requires
        txs@.len() > 0,
    ensures
        r as int == first_cheapest(tx_views(txs@)),
        r < txs@.len(),
{
    let ghost v = tx_views(txs@);
    let mut best: usize = 0;
    let mut i: usize = 1;
    proof {
        assert(v.take(1).len() == 1);
    }
    while i < txs.len()
        invariant
            1 <= i <= txs@.len(),
            v == tx_views(txs@),
            best < i,
            best as int == first_cheapest(v.take(i as int)),
        decreases txs@.len() - i,
    {
        proof {
            assert(v.take(i + 1).drop_last() =~= v.take(i as int));
            assert(v.take(i + 1)[best as int] == v[best as int]);
            assert(v.take(i + 1).last() == v[i as int]);
        }
        if txs[i].fee < txs[best].fee {
            best = i;
        }
        i = i + 1;
    }
    proof {
        assert(v.take(txs@.len() as int) =~= v);
    }
    best
}

impl ChainState {
    /// The tips ranked highest first (blue score, then hash).
    fn ranked_tips(&self) -> (r: Vec<crate::hash::Hash>)
        requires
            self.store.wf(),
        ensures
            r@ == tips_ranked(self.store, self.tips@, self.tips@.len() as int),
    {
        let mut ranked: Vec<crate::hash::Hash> = Vec::new();
        let mut k: usize = 0;
        while k < self.tips.len()
            invariant
                k <= self.tips@.len(),
                self.store.wf(),
                ranked@ == tips_ranked(self.store, self.tips@, k as int),
            decreases self.tips@.len() - k,
        {
            let x = self.tips[k];
            let mut p: usize = 0;
            while p < ranked.len()
                invariant
                    p <= ranked@.len(),
                    self.store.wf(),
                    tip_insert_at(self.store, ranked@, x, 0) == tip_insert_at(self.store, ranked@, x, p as int),
                ensures
                    p <= ranked@.len(),
                    tip_insert_at(self.store, ranked@, x, 0) == p,
                decreases ranked@.len() - p,
            {
                if tip_rank_before(&self.store, &x, &ranked[p]) {
                    break;
                }
                p = p + 1;
            }
            ranked.insert(p, x);
            k = k + 1;
        }
        ranked
    }

    /// A block template for `timestamp`: the best `MAX_BLOCK_PARENTS` tips
    /// by (blue score, hash) as parents, the difficulty the DAA requires of
    /// them, the block selection from the transparent mempool (at most a
    /// thousand transfers), then the lowest-fee transfer dropped until the
    /// base fits its cap, the body commitment, a placeholder STARK proof and
    /// the default version. The miner, its key, the nonce, the birth
    /// certificate, interlinks and `state_root` are left for the miner to
    /// fill in (the last two are commitments whose modules this crate does
    /// not hold).
    pub fn block_template(&self, timestamp: u64) -> (r: Block)
        requires
            self.wf(),
            nonces_below_max(self.transparent_mempool@),
            sums_fit(self.accounts@, self.transparent_mempool@),
            self.pruned_selected_blocks + self.main_chain@.len() <= u64::MAX,
        ensures
            r.parents@ == template_parents(self.store, self.tips@),
            r.difficulty == daa_difficulty(self.store, self.blocks@, self.lab_easy_pow, self.minted_supply, r.parents@),
            r.timestamp == timestamp,
            r.height == self.pruned_selected_blocks + self.main_chain@.len(),
            tx_views(r.transparent_txs@) == trim_to_fit(r.parents@.len(), ({
                let sel = spec_selection(self.accounts@, self.chain_id, self.transparent_mempool@);
                if sel.len() <= 1000 { sel } else { sel.take(1000) }
            })),
            r.merkle_root@ == spec_merkle_root(r),
            spec_base_size(r) <= MAX_BLOCK_SIZE || r.transparent_txs@.len() == 0,
            r.interlinks@.len() == 0,
            r.creator_pubkey@.len() == 0,
            r.stark_proof@ == Seq::new(64, |i: int| 0u8),
            r.birth_certificate.signature@.len() == 0,
            r.version == VERSIONBITS_TOP_BITS,
            r.coinbase_entropy == timestamp,
            r.nonce == 0,
    {
        let mut parents = self.ranked_tips();
        if parents.len() > MAX_BLOCK_PARENTS {
            parents.truncate(MAX_BLOCK_PARENTS);
        }
        let difficulty = self.expected_difficulty_at(parents.as_slice(), timestamp);
        let mut txs = self.select_valid_block_txs(self.transparent_mempool.as_slice());
        if txs.len() > 1000 {
            txs.truncate(1000);
        }
        let ghost np = parents@.len();
        let ghost start = tx_views(txs@);
        proof {
            assert(start =~= {
                let sel = spec_selection(self.accounts@, self.chain_id, self.transparent_mempool@);
                if sel.len() <= 1000 { sel } else { sel.take(1000) }
            });
        }
        let mut template = Block {
            height: self.pruned_selected_blocks + self.main_chain.len() as u64,
            timestamp,
            parents,
            interlinks: Vec::new(),
            transparent_txs: txs,
            merkle_root: crate::hash::Hash::zero(),
            state_root: crate::hash::Hash::zero(),
            miner: crate::hash::Hash::zero(),
            creator_pubkey: Vec::new(),
            nonce: 0,
            difficulty,
            version: default_block_version(),
            coinbase_entropy: timestamp,
            stark_proof: vec![0u8; 64],
            birth_certificate: BirthCertificate { signature: Vec::new() },
            size: 0,
        };
        proof {
            lemma_views_size(template.transparent_txs@);
        }
        let ghost t0 = template;
        while !template.verify_size() && template.transparent_txs.len() > 0
            invariant
                template == (Block { transparent_txs: template.transparent_txs, ..t0 }),
                template.parents@.len() == np,
                template.interlinks@.len() == 0,
                template.creator_pubkey@.len() == 0,
                trim_to_fit(np, tx_views(template.transparent_txs@)) == trim_to_fit(np, start),
                txs_wire_size(template.transparent_txs@) == views_wire_size(tx_views(template.transparent_txs@)),
            decreases template.transparent_txs@.len(),
        {
            let ghost v = tx_views(template.transparent_txs@);
            let i = cheapest_index(&template.transparent_txs);
            template.transparent_txs.remove(i);
            proof {
                assert(tx_views(template.transparent_txs@) =~= v.remove(i as int));
                lemma_views_size(template.transparent_txs@);
            }
        }
        proof {
            assert(trim_to_fit(np, tx_views(template.transparent_txs@)) == tx_views(template.transparent_txs@));
        }
        template.merkle_root = template.merkle_root();
        template
    }
}

/// Law: the first cheapest position holds a transfer paying no more than any
/// other, and every transfer before it pays strictly more.
pub proof fn law_first_cheapest_is_cheapest(v: Seq<TxView>)
    requires
        v.len() > 0,
    ensures
        0 <= first_cheapest(v) < v.len(),
        forall|k: int| 0 <= k < v.len() ==> v[first_cheapest(v)].fee <= #[trigger] v[k].fee,
        forall|k: int| 0 <= k < first_cheapest(v) ==> v[first_cheapest(v)].fee < #[trigger] v[k].fee,
    decreases v.len(),
{
    lemma_first_cheapest(v);
    if v.len() > 1 {
        let d = v.drop_last();
        law_first_cheapest_is_cheapest(d);
        let i = first_cheapest(d);
        assert(d[i] == v[i]);
        assert forall|k: int| 0 <= k < v.len() implies v[first_cheapest(v)].fee <= #[trigger] v[k].fee by {
            if k < v.len() - 1 {
                assert(d[k] == v[k]);
            }
        }
        assert forall|k: int| 0 <= k < first_cheapest(v) implies v[first_cheapest(v)].fee < #[trigger] v[k].fee by {
            if k < v.len() - 1 {
                assert(d[k] == v[k]);
            }
        }
    }
}

/// Law: trimming a body to the size cap drops the cheapest transfers first.
/// What is left together with what was dropped is the original body (as a
/// multiset), and no transfer that was dropped pays more than one that was
/// kept.
pub proof fn law_trim_drops_cheapest_first(np: nat, v: Seq<TxView>)
    ensures
        exists|dropped: Seq<TxView>| #[trigger] v.to_multiset() == trim_to_fit(np, v).to_multiset().add(dropped.to_multiset())
            && forall|i: int, j: int| 0 <= i < trim_to_fit(np, v).len() && 0 <= j < dropped.len()
                ==> #[trigger] dropped[j].fee <= #[trigger] trim_to_fit(np, v)[i].fee,
    decreases v.len(),
{
    broadcast use vstd::multiset::group_multiset_axioms;
    if v.len() == 0 || 316 + 64 * np + views_wire_size(v) <= MAX_BLOCK_SIZE {
        let e = Seq::<TxView>::empty();
        assert(trim_to_fit(np, v) == v);
        assert forall|x: TxView| e.to_multiset().count(x) == 0 by {
            vstd::seq_lib::to_multiset_contains(e, x);
        }
        assert(e.to_multiset() =~= vstd::multiset::Multiset::<TxView>::empty());
        assert(v.to_multiset() =~= trim_to_fit(np, v).to_multiset().add(e.to_multiset()));
        assert(v.to_multiset() == trim_to_fit(np, v).to_multiset().add(e.to_multiset()));
    } else {
        law_first_cheapest_is_cheapest(v);
        let c = first_cheapest(v);
        let w = v.remove(c);
        law_trim_drops_cheapest_first(np, w);
        let tr = trim_to_fit(np, w);
        assert(trim_to_fit(np, v) == tr);
        let d0 = choose|dropped: Seq<TxView>| #[trigger] w.to_multiset() == tr.to_multiset().add(dropped.to_multiset())
            && forall|i: int, j: int| 0 <= i < tr.len() && 0 <= j < dropped.len()
                ==> #[trigger] dropped[j].fee <= #[trigger] tr[i].fee;
        let d1 = d0.push(v[c]);
        vstd::seq_lib::to_multiset_remove(v, c);
        vstd::seq_lib::to_multiset_build(d0, v[c]);
        vstd::seq_lib::to_multiset_contains(v, v[c]);
        assert(v.contains(v[c]));
        assert(v.to_multiset().count(v[c]) > 0);
        assert(v.to_multiset() =~= w.to_multiset().insert(v[c]));
        assert(v.to_multiset() =~= tr.to_multiset().add(d1.to_multiset()));
        assert forall|i: int, j: int| 0 <= i < tr.len() && 0 <= j < d1.len() implies #[trigger] d1[j].fee <= #[trigger] tr[i].fee by {
            if j < d0.len() {
                assert(d1[j] == d0[j]);
            } else {
                assert(tr.to_multiset().count(tr[i]) > 0) by {
                    vstd::seq_lib::to_multiset_contains(tr, tr[i]);
                }
                assert(w.to_multiset().count(tr[i]) > 0);
                vstd::seq_lib::to_multiset_contains(w, tr[i]);
                let k = choose|k: int| 0 <= k < w.len() && w[k] == tr[i];
                if k < c {
                    assert(w[k] == v[k]);
                } else {
                    assert(w[k] == v[k + 1]);
                }
            }
        }
    }
}

} // verus!
