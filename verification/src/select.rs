//! Choosing a mutually consistent set of transfers for a block.
use vstd::prelude::*;
use crate::chain::{
    sat_mul, sat_mul_exec, find_account, lemma_bal_after_range, lemma_replay_prefix, nonce_after, nonce_of, replay_ok, state_after,
    step_ok, tx_views, Account, ChainState,
};
use crate::tx::{relay_bytes_usize, spec_form_ok, spec_tx_verify, TransparentTx, TxView};

verus! {

/// Transfer `j` is the last one in `ts` with its sender and nonce.
pub open spec fn is_latest(ts: Seq<TransparentTx>, j: int) -> bool {
    &&& 0 <= j < ts.len()
    &&& forall|k: int|
        j < k < ts.len() ==> !(#[trigger] ts[k].from@ == ts[j].from@ && ts[k].nonce == ts[j].nonce)
}

/// The position of the last transfer of `from` with nonce `n`.
pub open spec fn latest_with(ts: Seq<TransparentTx>, from: Seq<char>, n: int) -> Option<int> {
    if exists|j: int| is_latest(ts, j) && ts[j].from@ == from && ts[j].nonce == n {
        Some(choose|j: int| is_latest(ts, j) && ts[j].from@ == from && ts[j].nonce == n)
    } else {
        None
    }
}

/// Positions of the last transfers of `from` with nonces `lo..=hi`, or
/// `None` when one of those nonces has no transfer.
pub open spec fn nonce_run(ts: Seq<TransparentTx>, from: Seq<char>, lo: int, hi: int) -> Option<Seq<int>>
    decreases hi - lo + 1,
{
    if hi < lo {
        Some(Seq::empty())
    } else {
        match nonce_run(ts, from, lo, hi - 1) {
            None => None,
            Some(s) => match latest_with(ts, from, hi) {
                None => None,
                Some(j) => Some(s.push(j)),
            },
        }
    }
}

/// The ancestor package of nonce `target` for a sender whose next nonce is
/// `tip`: its transfers from `tip` through `target`.
pub open spec fn ancestor(ts: Seq<TransparentTx>, from: Seq<char>, tip: int, target: int) -> Option<Seq<int>> {
    if target < tip {
        None
    } else {
        nonce_run(ts, from, tip, target)
    }
}

/// Two positions that are both last for one sender and nonce are equal.
proof fn lemma_latest_unique(ts: Seq<TransparentTx>, a: int, b: int)
    requires
        is_latest(ts, a),
        is_latest(ts, b),
        ts[a].from@ == ts[b].from@,
        ts[a].nonce == ts[b].nonce,
    ensures
        a == b,
{
    if a < b {
        assert(!(ts[b].from@ == ts[a].from@ && ts[b].nonce == ts[a].nonce));
    } else if b < a {
        assert(!(ts[a].from@ == ts[b].from@ && ts[a].nonce == ts[b].nonce));
    }
}

/// A missing nonce leaves every longer run missing too.
proof fn lemma_run_none(ts: Seq<TransparentTx>, from: Seq<char>, lo: int, m: int, hi: int)
    requires
        lo <= m <= hi,
        nonce_run(ts, from, lo, m) is None,
    ensures
        nonce_run(ts, from, lo, hi) is None,
    decreases hi - m,
{
    if m < hi {
        lemma_run_none(ts, from, lo, m, hi - 1);
    }
}

/// The last transfer of `from` with nonce `n`.
fn find_latest(ts: &[TransparentTx], from: &String, n: u64) -> (r: Option<usize>)
    ensures
        match r {
            Some(j) => latest_with(ts@, from@, n as int) == Some(j as int) && is_latest(ts@, j as int)
                && ts@[j as int].from@ == from@ && ts@[j as int].nonce == n,
            None => latest_with(ts@, from@, n as int) is None,
        },
{
    let mut k: usize = ts.len();
    while k > 0
        invariant
            k <= ts@.len(),
            forall|m: int| k <= m < ts@.len() ==> !(#[trigger] ts@[m].from@ == from@ && ts@[m].nonce == n),
        decreases k,
    {
        if ts[k - 1].from == *from && ts[k - 1].nonce == n {
            let j = k - 1;
            proof {
                assert(is_latest(ts@, j as int));
                assert forall|x: int| is_latest(ts@, x) && ts@[x].from@ == from@ && ts@[x].nonce == n implies x == j by {
                    lemma_latest_unique(ts@, x, j as int);
                }
            }
            return Some(j);
        }
        k = k - 1;
    }
    None
}

/// The ancestor package of `target` for `from` at next nonce `tip`, as
/// positions in `ts`.
fn ancestor_package(ts: &[TransparentTx], from: &String, tip: u64, target: u64) -> (r: Option<Vec<usize>>)
    requires
        target < u64::MAX,
    ensures
        r is Some <==> ancestor(ts@, from@, tip as int, target as int) is Some,
        r matches Some(v) ==> {
            &&& ancestor(ts@, from@, tip as int, target as int) == Some(v@.map_values(|i: usize| i as int))
            &&& v@.len() == target - tip + 1
            &&& forall|k: int| 0 <= k < v@.len() ==> {
                &&& is_latest(ts@, #[trigger] v@[k] as int)
                &&& ts@[v@[k] as int].from@ == from@
                &&& ts@[v@[k] as int].nonce == tip + k
            }
        },
{
    if target < tip {
        return None;
    }
    let mut out: Vec<usize> = Vec::new();
    let mut n: u64 = tip;
    proof {
        assert(out@.map_values(|i: usize| i as int) =~= Seq::<int>::empty());
    }
    while n <= target
        invariant
            tip <= n <= target + 1,
            target < u64::MAX,
            nonce_run(ts@, from@, tip as int, n - 1) == Some(out@.map_values(|i: usize| i as int)),
            out@.len() == n - tip,
            forall|k: int| 0 <= k < out@.len() ==> {
                &&& is_latest(ts@, #[trigger] out@[k] as int)
                &&& ts@[out@[k] as int].from@ == from@
                &&& ts@[out@[k] as int].nonce == tip + k
            },
        decreases target + 1 - n,
    {
        match find_latest(ts, from, n) {
            None => {
                proof {
                    lemma_run_none(ts@, from@, tip as int, n as int, target as int);
                }
                return None;
            },
            Some(j) => {
                let ghost prev = out@;
                out.push(j);
                proof {
                    assert(out@.map_values(|i: usize| i as int) =~= prev.map_values(|i: usize| i as int).push(j as int));
                }
                n = n + 1;
            },
        }
    }
    Some(out)
}

/// Sum of `w` over the transfers of `ts` below `n` whose positions lie in `s`.
pub open spec fn wsum(ts: Seq<TransparentTx>, w: spec_fn(TxView) -> nat, s: Set<int>, n: int) -> nat
    decreases n,
{
    if n <= 0 {
        0
    } else {
        wsum(ts, w, s, n - 1) + if s.contains(n - 1) { w(ts[n - 1]@) } else { 0 }
    }
}

/// A transfer's fee.
pub open spec fn fee_weight() -> spec_fn(TxView) -> nat {
    |t: TxView| t.fee as nat
}

/// A transfer's relay size.
pub open spec fn bytes_weight() -> spec_fn(TxView) -> nat {
    |t: TxView| relay_bytes_usize(t)
}

proof fn lemma_wsum_insert(ts: Seq<TransparentTx>, w: spec_fn(TxView) -> nat, s: Set<int>, j: int, n: int)
    requires
        !s.contains(j),
    ensures
        wsum(ts, w, s.insert(j), n) == wsum(ts, w, s, n) + if 0 <= j < n { w(ts[j]@) } else { 0 },
    decreases n,
{
    if n > 0 {
        lemma_wsum_insert(ts, w, s, j, n - 1);
    }
}

proof fn lemma_wsum_empty(ts: Seq<TransparentTx>, w: spec_fn(TxView) -> nat, n: int)
    ensures
        wsum(ts, w, Set::empty(), n) == 0,
    decreases n,
{
    if n > 0 {
        lemma_wsum_empty(ts, w, n - 1);
    }
}

proof fn lemma_wsum_le(ts: Seq<TransparentTx>, w: spec_fn(TxView) -> nat, s: Set<int>, s2: Set<int>, n: int)
    requires
        s.subset_of(s2),
    ensures
        wsum(ts, w, s, n) <= wsum(ts, w, s2, n),
    decreases n,
{
    if n > 0 {
        lemma_wsum_le(ts, w, s, s2, n - 1);
    }
}

/// Whether transfer `j` is the last one with its sender and nonce.
fn is_last(ts: &[TransparentTx], j: usize) -> (r: bool)
    requires
        j < ts@.len(),
    ensures
        r == is_latest(ts@, j as int),
{
    let len = ts.len();
    let mut k: usize = j + 1;
    while k < len
        invariant
            j < k <= ts@.len(),
            len == ts@.len(),
            forall|m: int| j < m < k ==> !(#[trigger] ts@[m].from@ == ts@[j as int].from@ && ts@[m].nonce == ts@[j as int].nonce),
        decreases ts@.len() - k,
    {
        if ts[k].from == ts[j].from && ts[k].nonce == ts[j].nonce {
            return false;
        }
        k = k + 1;
    }
    true
}

/// Total fee and relay size (at least 1) of a package.
fn package_score(ts: &[TransparentTx], pkg: &Vec<usize>, Ghost(tip): Ghost<int>) -> (r: (u128, usize))
    requires
        wsum(ts@, fee_weight(), pset(pkg@.map_values(|i: usize| i as int)), ts@.len() as int) <= u128::MAX,
        wsum(ts@, bytes_weight(), pset(pkg@.map_values(|i: usize| i as int)), ts@.len() as int) <= usize::MAX,
        forall|k: int| 0 <= k < pkg@.len() ==> {
            &&& (#[trigger] pkg@[k]) < ts@.len()
            &&& ts@[pkg@[k] as int].nonce == tip + k
        },
    ensures
        r.0 == wsum(ts@, fee_weight(), pset(pkg@.map_values(|i: usize| i as int)), ts@.len() as int),
        r.1 == size_at_least_one(wsum(ts@, bytes_weight(), pset(pkg@.map_values(|i: usize| i as int)), ts@.len() as int)),
{
    let mut fee: u128 = 0;
    let mut bytes: usize = 0;
    let mut k: usize = 0;
    let ghost mut used: Set<int> = Set::empty();
    proof {
        assert(pset(pkg@.map_values(|i: usize| i as int).take(0)) =~= Set::<int>::empty());
        lemma_wsum_empty(ts@, fee_weight(), ts@.len() as int);
        lemma_wsum_empty(ts@, bytes_weight(), ts@.len() as int);
    }
    while k < pkg.len()
        invariant
            k <= pkg@.len(),
            wsum(ts@, fee_weight(), pset(pkg@.map_values(|i: usize| i as int)), ts@.len() as int) <= u128::MAX,
            wsum(ts@, bytes_weight(), pset(pkg@.map_values(|i: usize| i as int)), ts@.len() as int) <= usize::MAX,
            used.subset_of(pset(pkg@.map_values(|i: usize| i as int))),
            forall|m: int| 0 <= m < pkg@.len() ==> {
                &&& (#[trigger] pkg@[m]) < ts@.len()
                &&& ts@[pkg@[m] as int].nonce == tip + m
            },
            forall|i: int| used.contains(i) ==> 0 <= i < ts@.len() && ts@[i].nonce < tip + k,
            fee == wsum(ts@, fee_weight(), used, ts@.len() as int),
            bytes == wsum(ts@, bytes_weight(), used, ts@.len() as int),
            used == pset(pkg@.map_values(|i: usize| i as int).take(k as int)),
        decreases pkg@.len() - k,
    {
        let j = pkg[k];
        let t = &ts[j];
        proof {
            assert(!used.contains(j as int));
            lemma_wsum_insert(ts@, fee_weight(), used, j as int, ts@.len() as int);
            lemma_wsum_insert(ts@, bytes_weight(), used, j as int, ts@.len() as int);
            let ps = pset(pkg@.map_values(|i: usize| i as int));
            assert(pkg@.map_values(|i: usize| i as int)[k as int] == j as int);
            assert(ps.contains(j as int));
            lemma_wsum_le(ts@, fee_weight(), used.insert(j as int), ps, ts@.len() as int);
            lemma_wsum_le(ts@, bytes_weight(), used.insert(j as int), ps, ts@.len() as int);
        }
        let b = t.relay_bytes();
        fee = fee + t.fee;
        bytes = bytes + b;
        proof {
            let pm = pkg@.map_values(|i: usize| i as int);
            let ta = pm.take(k + 1);
            let tb = pm.take(k as int);
            assert(ta =~= tb.push(j as int));
            assert(pset(ta) =~= pset(tb).insert(j as int)) by {
                assert forall|x: int| pset(ta).contains(x) <==> pset(tb).insert(j as int).contains(x) by {
                    if ta.contains(x) && x != j {
                        let q = choose|q: int| 0 <= q < ta.len() && #[trigger] ta[q] == x;
                        assert(tb[q] == x);
                    }
                    if tb.contains(x) {
                        let q = choose|q: int| 0 <= q < tb.len() && #[trigger] tb[q] == x;
                        assert(ta[q] == x);
                    }
                    if x == j {
                        assert(ta[k as int] == x);
                    }
                }
            }
            used = used.insert(j as int);
        }
        k = k + 1;
    }
    proof {
        let pm = pkg@.map_values(|i: usize| i as int);
        assert(pm.take(pkg@.len() as int) =~= pm);
    }
    if bytes == 0 {
        bytes = 1;
    }
    (fee, bytes)
}

/// A relay size, raised to 1 when zero.
pub open spec fn size_at_least_one(b: nat) -> nat {
    if b == 0 { 1 } else { b }
}

/// A ranked candidate: its position, package fee, package size, own fee
/// and transaction id.
pub type RankKey = (int, u128, usize, u128, Seq<u8>);

/// `a` is tried before `b`: higher package fee rate (cross-multiplied,
/// saturating), then higher package fee, then higher own fee, then the
/// smaller transaction id.
pub open spec fn key_before(a: RankKey, b: RankKey) -> bool {
    let x = sat_mul(a.1, b.2 as u128);
    let y = sat_mul(b.1, a.2 as u128);
    if x != y {
        x > y
    } else if a.1 != b.1 {
        a.1 > b.1
    } else if a.3 != b.3 {
        a.3 > b.3
    } else {
        crate::bytes::lex_lt(a.4, b.4)
    }
}

/// Where `c` goes in `s` from position `p` on: before the first entry it
/// ranks before, else at the end.
pub open spec fn insert_at(s: Seq<RankKey>, c: RankKey, p: int) -> int
    decreases s.len() - p,
{
    if p >= s.len() {
        s.len() as int
    } else if key_before(c, s[p]) {
        p
    } else {
        insert_at(s, c, p + 1)
    }
}

/// The ranking key of candidate `j`.
pub open spec fn cand_key(accts: Seq<(String, Account)>, ts: Seq<TransparentTx>, j: int) -> RankKey {
    let t = ts[j];
    let p = ancestor(ts, t.from@, nonce_of(accts, t.from@) as int, t.nonce as int)->0;
    (j, wsum(ts, fee_weight(), pset(p), ts.len() as int) as u128,
        size_at_least_one(wsum(ts, bytes_weight(), pset(p), ts.len() as int)) as usize, t.fee,
        crate::tx::spec_tx_hash(t@))
}

/// The candidates among the first `n` transfers, each inserted in turn at
/// its ranking position.
pub open spec fn ranked_upto(accts: Seq<(String, Account)>, ts: Seq<TransparentTx>, n: int) -> Seq<RankKey>
    decreases n,
{
    if n <= 0 {
        Seq::empty()
    } else {
        let s = ranked_upto(accts, ts, n - 1);
        if is_candidate(accts, ts, n - 1) {
            let c = cand_key(accts, ts, n - 1);
            s.insert(insert_at(s, c, 0), c)
        } else {
            s
        }
    }
}

/// `good` holds a transfer of `from` with nonce `n`.
pub open spec fn chosen(good: Seq<TxView>, from: Seq<char>, n: u64) -> bool {
    exists|m: int| 0 <= m < good.len() && (#[trigger] good[m]).from == from && good[m].nonce == n
}

/// Trying the package `pv` on top of `good`, from its `k`-th transfer on
/// with `trial` taken so far: transfers `good` already holds are skipped,
/// the others must each pass after `trial`; the result is `None` when one
/// fails or none was added.
pub open spec fn try_walk(accts: Seq<(String, Account)>, chain_id: u64, good: Seq<TxView>, pv: Seq<TxView>, k: int,
    trial: Seq<TxView>) -> Option<Seq<TxView>>
    decreases pv.len() - k,
{
    if k >= pv.len() {
        if trial.len() == good.len() { None } else { Some(trial) }
    } else if chosen(good, pv[k].from, pv[k].nonce) {
        try_walk(accts, chain_id, good, pv, k + 1, trial)
    } else if tx_ok(chain_id, pv[k]) && step_ok(accts, trial, pv[k]) {
        try_walk(accts, chain_id, good, pv, k + 1, trial.push(pv[k]))
    } else {
        None
    }
}

/// One greedy step: the candidate with key `c` brings its ancestor package
/// (from its sender's next nonce after `good`) when it is not yet taken and
/// the package passes whole; otherwise `good` stays.
pub open spec fn greedy_step(accts: Seq<(String, Account)>, chain_id: u64, ts: Seq<TransparentTx>, good: Seq<TxView>,
    c: RankKey) -> Seq<TxView> {
    let t = ts[c.0]@;
    let tip = nonce_after(accts, good, t.from);
    if chosen(good, t.from, t.nonce) || t.nonce < tip {
        good
    } else {
        match ancestor(ts, t.from, tip, t.nonce as int) {
            Some(p) => match try_walk(accts, chain_id, good, package_views(ts, p), 0, good) {
                Some(g2) => g2,
                None => good,
            },
            None => good,
        }
    }
}

/// The transfers taken after the first `i` greedy steps over `order`.
pub open spec fn greedy(accts: Seq<(String, Account)>, chain_id: u64, ts: Seq<TransparentTx>, order: Seq<RankKey>, i: int)
    -> Seq<TxView>
    decreases i,
{
    if i <= 0 {
        Seq::empty()
    } else {
        greedy_step(accts, chain_id, ts, greedy(accts, chain_id, ts, order, i - 1), order[i - 1])
    }
}

/// The block selection: a greedy pass over the ranked candidates.
pub open spec fn spec_selection(accts: Seq<(String, Account)>, chain_id: u64, ts: Seq<TransparentTx>) -> Seq<TxView> {
    let order = ranked_upto(accts, ts, ts.len() as int);
    greedy(accts, chain_id, ts, order, order.len() as int)
}

proof fn lemma_chosen_views(good: Seq<TransparentTx>, from: Seq<char>, n: u64)
    ensures
        chosen(tx_views(good), from, n) <==> exists|m: int| 0 <= m < good.len() && (#[trigger] good[m]).from@ == from && good[m].nonce == n,
{
    if chosen(tx_views(good), from, n) {
        let m = choose|m: int| 0 <= m < tx_views(good).len() && (#[trigger] tx_views(good)[m]).from == from && tx_views(good)[m].nonce == n;
        assert(tx_views(good)[m] == good[m]@);
    }
    if exists|m: int| 0 <= m < good.len() && (#[trigger] good[m]).from@ == from && good[m].nonce == n {
        let m = choose|m: int| 0 <= m < good.len() && (#[trigger] good[m]).from@ == from && good[m].nonce == n;
        assert(tx_views(good)[m] == good[m]@);
    }
}

/// A candidate transfer with its ancestor package's score.
struct Ranked {
    idx: usize,
    pkg_fee: u128,
    pkg_len: usize,
    fee: u128,
    hash: crate::hash::Hash,
}

/// The ranking key of a ranked candidate.
spec fn key_of(r: Ranked) -> RankKey {
    (r.idx as int, r.pkg_fee, r.pkg_len, r.fee, r.hash@)
}

/// The ranking keys of a list of candidates.
spec fn keys(v: Seq<Ranked>) -> Seq<RankKey> {
    v.map_values(|r: Ranked| key_of(r))
}

fn ranks_before(a: &Ranked, b: &Ranked) -> (r: bool)
    ensures
        r == key_before(key_of(*a), key_of(*b)),
{
    let x = sat_mul_exec(a.pkg_fee, b.pkg_len as u128);
    let y = sat_mul_exec(b.pkg_fee, a.pkg_len as u128);
    if x != y {
        x > y
    } else if a.pkg_fee != b.pkg_fee {
        a.pkg_fee > b.pkg_fee
    } else if a.fee != b.fee {
        a.fee > b.fee
    } else {
        a.hash.less_than(&b.hash)
    }
}

/// Insert `c` after every candidate that it does not rank before.
fn insert_ranked(sorted: &mut Vec<Ranked>, c: Ranked) -> (pos: usize)
    ensures
        pos <= old(sorted)@.len(),
        pos == insert_at(keys(old(sorted)@), key_of(c), 0),
        final(sorted)@ == old(sorted)@.insert(pos as int, c),
{
    let mut p: usize = 0;
    while p < sorted.len()
        invariant
            p <= sorted@.len(),
            sorted@ == old(sorted)@,
            insert_at(keys(sorted@), key_of(c), 0) == insert_at(keys(sorted@), key_of(c), p as int),
        ensures
            p <= sorted@.len(),
            sorted@ == old(sorted)@,
            insert_at(keys(sorted@), key_of(c), 0) == p,
        decreases sorted@.len() - p,
    {
        proof {
            assert(keys(sorted@)[p as int] == key_of(sorted@[p as int]));
        }
        if ranks_before(&c, &sorted[p]) {
            break;
        }
        p = p + 1;
    }
    sorted.insert(p, c);
    p
}

/// Transfer `j` is the last of its sender and nonce and has a complete
/// ancestor package from its sender's account nonce.
pub open spec fn is_candidate(accts: Seq<(String, Account)>, ts: Seq<TransparentTx>, j: int) -> bool {
    &&& is_latest(ts, j)
    &&& ancestor(ts, ts[j].from@, nonce_of(accts, ts[j].from@) as int, ts[j].nonce as int) is Some
}

/// No transfer carries the largest nonce.
pub open spec fn nonces_below_max(ts: Seq<TransparentTx>) -> bool {
    forall|i: int| 0 <= i < ts.len() ==> (#[trigger] ts[i].nonce) < u64::MAX
}

/// The positions named in `p`.
pub open spec fn pset(p: Seq<int>) -> Set<int> {
    Set::new(|i: int| p.contains(i))
}

/// The fee and relay-size sums of every candidate's ancestor package fit
/// their machine types.
pub open spec fn sums_fit(accts: Seq<(String, Account)>, ts: Seq<TransparentTx>) -> bool {
    forall|j: int| 0 <= j < ts.len() && #[trigger] is_candidate(accts, ts, j) ==> {
        let p = ancestor(ts, ts[j].from@, nonce_of(accts, ts[j].from@) as int, ts[j].nonce as int)->0;
        &&& wsum(ts, fee_weight(), pset(p), ts.len() as int) <= u128::MAX
        &&& wsum(ts, bytes_weight(), pset(p), ts.len() as int) <= usize::MAX
    }
}

/// Every candidate of `ts`, ordered by `ranks_before` (stable).
fn rank_candidates(accts: &Vec<(String, Account)>, ts: &[TransparentTx]) -> (r: Vec<Ranked>)
    requires
        nonces_below_max(ts@),
        sums_fit(accts@, ts@),
    ensures
        forall|k: int| 0 <= k < r@.len() ==> is_candidate(accts@, ts@, (#[trigger] r@[k]).idx as int),
        forall|j: int| 0 <= j < ts@.len() && is_candidate(accts@, ts@, j) ==> exists|k: int|
            0 <= k < r@.len() && (#[trigger] r@[k]).idx == j,
        keys(r@) == ranked_upto(accts@, ts@, ts@.len() as int),
{
    let mut sorted: Vec<Ranked> = Vec::new();
    proof {
        assert(keys(sorted@) =~= ranked_upto(accts@, ts@, 0));
    }
    let len = ts.len();
    let mut j: usize = 0;
    while j < len
        invariant
            j <= len,
            len == ts@.len(),
            nonces_below_max(ts@),
            sums_fit(accts@, ts@),
            forall|k: int| 0 <= k < sorted@.len() ==> is_candidate(accts@, ts@, (#[trigger] sorted@[k]).idx as int),
            forall|x: int| 0 <= x < j && is_candidate(accts@, ts@, x) ==> exists|k: int|
                0 <= k < sorted@.len() && (#[trigger] sorted@[k]).idx == x,
            keys(sorted@) == ranked_upto(accts@, ts@, j as int),
        decreases len - j,
    {
        let ghost prev = keys(sorted@);
        if is_last(ts, j) {
            let t = &ts[j];
            let tip: u64 = match find_account(accts, &t.from) {
                Some(a) => a.nonce,
                None => 0,
            };
            assert(tip == nonce_of(accts@, t.from@));
            assert(t.nonce < u64::MAX);
            match ancestor_package(ts, &t.from, tip, t.nonce) {
                Some(pkg) => {
                    proof {
                        assert(is_candidate(accts@, ts@, j as int));
                    }
                    let (pkg_fee, pkg_len) = package_score(ts, &pkg, Ghost(tip as int));
                    let c = Ranked { idx: j, pkg_fee, pkg_len, fee: t.fee, hash: t.tx_hash() };
                    let ghost old_sorted = sorted@;
                    proof {
                        assert(key_of(c) == cand_key(accts@, ts@, j as int));
                    }
                    let pos = insert_ranked(&mut sorted, c);
                    proof {
                        assert(keys(sorted@) =~= keys(old_sorted).insert(pos as int, key_of(c)));
                        assert(sorted@[pos as int].idx == j);
                        assert forall|k: int| 0 <= k < sorted@.len() implies is_candidate(accts@, ts@, (#[trigger] sorted@[k]).idx as int) by {
                            if k < pos {
                                assert(sorted@[k] == old_sorted[k]);
                            } else if k > pos {
                                assert(sorted@[k] == old_sorted[k - 1]);
                            }
                        }
                        assert forall|x: int| 0 <= x < j + 1 && is_candidate(accts@, ts@, x) implies exists|k: int|
                            0 <= k < sorted@.len() && (#[trigger] sorted@[k]).idx == x by {
                            if x < j {
                                let k0 = choose|k: int| 0 <= k < old_sorted.len() && (#[trigger] old_sorted[k]).idx == x;
                                if k0 < pos {
                                    assert(sorted@[k0].idx == x);
                                } else {
                                    assert(sorted@[k0 + 1].idx == x);
                                }
                            } else {
                                assert(sorted@[pos as int].idx == x);
                            }
                        }
                    }
                },
                None => {
                    proof {
                        assert(!is_candidate(accts@, ts@, j as int));
                    }
                },
            }
        }
        proof {
            if !is_latest(ts@, j as int) {
                assert(!is_candidate(accts@, ts@, j as int));
            }
        }
        j = j + 1;
    }
    sorted
}

/// A transfer that passes the per-transfer checks of block selection.
#[verifier::opaque]
pub open spec fn tx_ok(chain_id: u64, t: TxView) -> bool {
    &&& spec_form_ok(t)
    &&& t.chain_id == chain_id
    &&& spec_tx_verify(t)
}

/// Each transfer of `p` passes its checks and may follow `base` and the
/// transfers of `p` before it.
pub open spec fn batch_ok(accts: Seq<(String, Account)>, chain_id: u64, base: Seq<TxView>, p: Seq<TxView>) -> bool
    decreases p.len(),
{
    p.len() == 0 || {
        &&& batch_ok(accts, chain_id, base, p.drop_last())
        &&& tx_ok(chain_id, p.last())
        &&& step_ok(accts, base + p.drop_last(), p.last())
    }
}

/// The transfers at positions `p`.
pub open spec fn package_views(ts: Seq<TransparentTx>, p: Seq<int>) -> Seq<TxView> {
    p.map_values(|i: int| ts[i]@)
}

/// Transfer `j` is last for its sender and nonce and its whole ancestor
/// package passes from the accounts as they stand.
pub open spec fn opens_block(accts: Seq<(String, Account)>, chain_id: u64, ts: Seq<TransparentTx>, j: int) -> bool {
    &&& is_latest(ts, j)
    &&& match ancestor(ts, ts[j].from@, nonce_of(accts, ts[j].from@) as int, ts[j].nonce as int) {
        Some(p) => batch_ok(accts, chain_id, Seq::empty(), package_views(ts, p)),
        None => false,
    }
}

/// `t` is the last transfer of `ts` for its sender and nonce.
#[verifier::opaque]
pub open spec fn from_transfers(ts: Seq<TransparentTx>, t: TxView) -> bool {
    exists|j: int| is_latest(ts, j) && #[trigger] ts[j]@ == t
}

proof fn lemma_batch_prefix(accts: Seq<(String, Account)>, chain_id: u64, base: Seq<TxView>, p: Seq<TxView>, m: int)
    requires
        batch_ok(accts, chain_id, base, p),
        0 <= m <= p.len(),
    ensures
        batch_ok(accts, chain_id, base, p.take(m)),
    decreases p.len() - m,
{
    if m < p.len() {
        lemma_batch_prefix(accts, chain_id, base, p, m + 1);
        assert(p.take(m + 1).drop_last() =~= p.take(m));
    } else {
        assert(p.take(m) =~= p);
    }
}

/// Whether `good` holds a transfer of `from` with nonce `nonce`.
fn is_selected(good: &Vec<TransparentTx>, from: &String, nonce: u64) -> (r: bool)
    ensures
        r == exists|m: int| 0 <= m < good@.len() && (#[trigger] good@[m]).from@ == from@ && good@[m].nonce == nonce,
{
    let mut m: usize = 0;
    while m < good.len()
        invariant
            m <= good@.len(),
            forall|x: int| 0 <= x < m ==> !((#[trigger] good@[x]).from@ == from@ && good@[x].nonce == nonce),
        decreases good@.len() - m,
    {
        if good[m].from == *from && good[m].nonce == nonce {
            return true;
        }
        m = m + 1;
    }
    false
}

/// A copy of a list of transfers.
fn copy_txs(v: &Vec<TransparentTx>) -> (r: Vec<TransparentTx>)
    ensures
        r@.len() == v@.len(),
        forall|m: int| 0 <= m < v@.len() ==> (#[trigger] r@[m])@ == v@[m]@,
        tx_views(r@) == tx_views(v@),
{
    let mut r: Vec<TransparentTx> = Vec::new();
    let mut m: usize = 0;
    while m < v.len()
        invariant
            m <= v@.len(),
            r@.len() == m,
            forall|x: int| 0 <= x < m ==> (#[trigger] r@[x])@ == v@[x]@,
        decreases v@.len() - m,
    {
        r.push(v[m].duplicate());
        m = m + 1;
    }
    assert(tx_views(r@) =~= tx_views(v@));
    r
}

/// Appending a transfer that passes keeps a list of passing transfers.
proof fn lemma_push_ok(accts: Seq<(String, Account)>, chain_id: u64, ts: Seq<TransparentTx>,
    before: Seq<TransparentTx>, after: Seq<TransparentTx>, u: TxView)
    requires
        after.len() == before.len() + 1,
        forall|m: int| 0 <= m < before.len() ==> #[trigger] after[m] == before[m],
        after.last()@ == u,
        replay_ok(accts, tx_views(before)),
        forall|m: int| 0 <= m < before.len() ==> tx_ok(chain_id, (#[trigger] before[m])@) && from_transfers(ts, before[m]@),
        tx_ok(chain_id, u),
        step_ok(accts, tx_views(before), u),
        from_transfers(ts, u),
    ensures
        replay_ok(accts, tx_views(after)),
        tx_views(after) == tx_views(before).push(u),
        forall|m: int| 0 <= m < after.len() ==> tx_ok(chain_id, (#[trigger] after[m])@) && from_transfers(ts, after[m]@),
{
    assert(tx_views(after) =~= tx_views(before).push(u));
    assert(tx_views(after).drop_last() =~= tx_views(before));
    assert forall|m: int| 0 <= m < after.len() implies tx_ok(chain_id, (#[trigger] after[m])@) && from_transfers(ts, after[m]@) by {
        if m < before.len() {
            assert(after[m] == before[m]);
        }
    }
}

impl ChainState {
    /// `u` passes its own checks and may follow `trial`.
    fn step_passes(&self, trial: &Vec<TransparentTx>, u: &TransparentTx) -> (r: bool)
        requires
            replay_ok(self.accounts@, tx_views(trial@)),
        ensures
            r == (tx_ok(self.chain_id, u@) && step_ok(self.accounts@, tx_views(trial@), u@)),
    {
        reveal(tx_ok);
        if u.validate_form().is_err() || u.chain_id != self.chain_id || !u.verify() {
            return false;
        }
        let (_, cur_nonce) = state_after(&self.accounts, trial, &u.from);
        if u.nonce != cur_nonce {
            return false;
        }
        let debit = match u.amount.checked_add(u.fee) {
            Some(d) => d,
            None => {
                return false;
            },
        };
        let (cur_bal, _) = state_after(&self.accounts, trial, &u.from);
        if cur_bal < debit {
            return false;
        }
        let (cur_to, _) = state_after(&self.accounts, trial, &u.to);
        cur_to.checked_add(u.amount).is_some()
    }

    /// `good` followed by the transfers of the package `pkg` that `good`
    /// does not already hold, when every one of them passes its checks in
    /// turn and at least one is added; `None` otherwise.
    fn try_package(&self, ts: &[TransparentTx], good: &Vec<TransparentTx>, pkg: &Vec<usize>) -> (r: Option<Vec<TransparentTx>>)
        requires
            replay_ok(self.accounts@, tx_views(good@)),
            forall|m: int| 0 <= m < good@.len() ==> tx_ok(self.chain_id, (#[trigger] good@[m])@) && from_transfers(ts@, good@[m]@),
            pkg@.len() >= 1,
            forall|k: int| 0 <= k < pkg@.len() ==> is_latest(ts@, #[trigger] pkg@[k] as int),
        ensures
            r matches Some(trial) ==> {
                &&& replay_ok(self.accounts@, tx_views(trial@))
                &&& trial@.len() > good@.len()
                &&& forall|m: int| 0 <= m < trial@.len() ==> tx_ok(self.chain_id, (#[trigger] trial@[m])@) && from_transfers(ts@, trial@[m]@)
            },
            good@.len() == 0 ==> (r is Some <==> batch_ok(self.accounts@, self.chain_id, Seq::empty(),
                package_views(ts@, pkg@.map_values(|i: usize| i as int)))),
            match r {
                Some(trial) => try_walk(self.accounts@, self.chain_id, tx_views(good@),
                    package_views(ts@, pkg@.map_values(|i: usize| i as int)), 0, tx_views(good@)) == Some(tx_views(trial@)),
                None => try_walk(self.accounts@, self.chain_id, tx_views(good@),
                    package_views(ts@, pkg@.map_values(|i: usize| i as int)), 0, tx_views(good@)) is None,
            },
    {
        let ghost accts = self.accounts@;
        let ghost pv = package_views(ts@, pkg@.map_values(|i: usize| i as int));
        let mut trial = copy_txs(good);
        let ghost mut bv: Seq<TxView> = Seq::empty();
        let mut added: usize = 0;
        let mut k: usize = 0;
        proof {
            assert(tx_views(trial@) =~= tx_views(good@) + bv);
        }
        while k < pkg.len()
            invariant
                k <= pkg@.len(),
                accts == self.accounts@,
                pv == package_views(ts@, pkg@.map_values(|i: usize| i as int)),
                forall|x: int| 0 <= x < pkg@.len() ==> is_latest(ts@, #[trigger] pkg@[x] as int),
                replay_ok(accts, tx_views(trial@)),
                tx_views(trial@) == tx_views(good@) + bv,
                trial@.len() == good@.len() + added,
                added <= k,
                forall|m: int| 0 <= m < trial@.len() ==> tx_ok(self.chain_id, (#[trigger] trial@[m])@) && from_transfers(ts@, trial@[m]@),
                good@.len() == 0 ==> bv == pv.take(k as int) && added == k && batch_ok(accts, self.chain_id, Seq::empty(), bv),
                try_walk(accts, self.chain_id, tx_views(good@), pv, 0, tx_views(good@))
                    == try_walk(accts, self.chain_id, tx_views(good@), pv, k as int, tx_views(trial@)),
            decreases pkg@.len() - k,
        {
            let u = &ts[pkg[k]];
            proof {
                lemma_chosen_views(good@, u@.from, u@.nonce);
            }
            let ghost vs = tx_views(trial@);
            proof {
                assert(pv[k as int] == u@);
                assert(pv.take(k + 1).drop_last() =~= pv.take(k as int));
                assert(pv.take(k + 1).last() == u@);
                assert(Seq::<TxView>::empty() + bv =~= bv);
            }
            if is_selected(good, &u.from, u.nonce) {
                k = k + 1;
                continue;
            }
            if !self.step_passes(&trial, u) {
                proof {
                    if good@.len() == 0 && batch_ok(accts, self.chain_id, Seq::empty(), pv) {
                        lemma_batch_prefix(accts, self.chain_id, Seq::empty(), pv, k + 1);
                    }
                }
                return None;
            }
            let ghost before = trial@;
            trial.push(u.duplicate());
            proof {
                assert(is_latest(ts@, pkg@[k as int] as int) && ts@[pkg@[k as int] as int]@ == u@);
                assert(from_transfers(ts@, u@)) by {
                    reveal(from_transfers);
                }
                lemma_push_ok(accts, self.chain_id, ts@, before, trial@, u@);
                assert(tx_views(trial@) =~= tx_views(good@) + bv.push(u@));
                bv = bv.push(u@);
                if good@.len() == 0 {
                    assert(pv.take(k + 1) =~= pv.take(k as int).push(u@));
                    assert(bv.drop_last() =~= pv.take(k as int));
                }
            }
            added = added + 1;
            k = k + 1;
        }
        if added == 0 {
            return None;
        }
        proof {
            if good@.len() == 0 {
                assert(pv.take(k as int) =~= pv);
            }
        }
        Some(trial)
    }
}

impl ChainState {
    /// Select a valid, mutually consistent subset of candidate transfers for
    /// a block, skipping anything that would break an account's nonce or
    /// balance sequence.
    ///
    /// Only the last transfer for each sender and nonce counts. Candidates
    /// are tried by the fee rate of their ancestor package (the sender's
    /// transfers from the account's next nonce through the candidate, fees
    /// over relay bytes), then package fee, own fee and transaction id; a
    /// candidate brings its missing lower-nonce parents with it, and the
    /// package is taken whole or not at all.
    pub fn select_valid_block_txs(&self, transfers: &[TransparentTx]) -> (r: Vec<TransparentTx>)
        requires
            nonces_below_max(transfers@),
            sums_fit(self.accounts@, transfers@),
        ensures
            replay_ok(self.accounts@, tx_views(r@)),
            forall|i: int| 0 <= i < r@.len() ==> tx_ok(self.chain_id, (#[trigger] r@[i])@) && from_transfers(transfers@, r@[i]@),
            r@.len() > 0 <==> exists|j: int| opens_block(self.accounts@, self.chain_id, transfers@, j),
            tx_views(r@) == spec_selection(self.accounts@, self.chain_id, transfers@),
    {
        if transfers.len() == 0 {
            let e: Vec<TransparentTx> = Vec::new();
            proof {
                assert(ranked_upto(self.accounts@, transfers@, 0).len() == 0);
                assert(tx_views(e@) =~= Seq::<TxView>::empty());
            }
            return e;
        }
        let ghost accts = self.accounts@;
        let ranked = rank_candidates(&self.accounts, transfers);
        let mut good: Vec<TransparentTx> = Vec::new();
        let mut i: usize = 0;
        proof {
            assert(tx_views(good@) =~= Seq::<TxView>::empty());
            assert(keys(ranked@).len() == ranked@.len());
        }
        while i < ranked.len()
            invariant
                i <= ranked@.len(),
                accts == self.accounts@,
                nonces_below_max(transfers@),
                forall|k: int| 0 <= k < ranked@.len() ==> is_candidate(accts, transfers@, (#[trigger] ranked@[k]).idx as int),
                replay_ok(accts, tx_views(good@)),
                forall|m: int| 0 <= m < good@.len() ==> tx_ok(self.chain_id, (#[trigger] good@[m])@) && from_transfers(transfers@, good@[m]@),
                good@.len() == 0 ==> forall|k: int| 0 <= k < i ==> !opens_block(accts, self.chain_id, transfers@, (#[trigger] ranked@[k]).idx as int),
                good@.len() > 0 ==> exists|j: int| opens_block(accts, self.chain_id, transfers@, j),
                tx_views(good@) == greedy(accts, self.chain_id, transfers@, keys(ranked@), i as int),
                keys(ranked@) == ranked_upto(accts, transfers@, transfers@.len() as int),
            decreases ranked@.len() - i,
        {
            let c = &ranked[i];
            let t = &transfers[c.idx];
            let ghost j = c.idx as int;
            let ghost gv = tx_views(good@);
            proof {
                assert(keys(ranked@)[i as int] == key_of(ranked@[i as int]));
                lemma_chosen_views(good@, t@.from, t@.nonce);
                assert(is_candidate(accts, transfers@, j));
                if good@.len() == 0 {
                    assert(tx_views(good@) =~= Seq::<TxView>::empty());
                }
            }
            if !is_selected(&good, &t.from, t.nonce) {
                let (_, tip) = state_after(&self.accounts, &good, &t.from);
                if t.nonce >= tip {
                    assert(t.nonce < u64::MAX);
                    match ancestor_package(transfers, &t.from, tip, t.nonce) {
                        Some(pkg) => {
                            let ghost was_empty = good@.len() == 0;
                            match self.try_package(transfers, &good, &pkg) {
                                Some(trial) => {
                                    good = trial;
                                    proof {
                                        if was_empty {
                                            assert(opens_block(accts, self.chain_id, transfers@, j));
                                        }
                                    }
                                },
                                None => {
                                    proof {
                                        if was_empty {
                                            assert(!opens_block(accts, self.chain_id, transfers@, j));
                                        }
                                    }
                                },
                            }
                        },
                        None => {},
                    }
                }
            }
            proof {
                assert(tx_views(good@) == greedy_step(accts, self.chain_id, transfers@, gv, keys(ranked@)[i as int]));
            }
            i = i + 1;
        }
        proof {
            if good@.len() == 0 {
                assert forall|j: int| !opens_block(accts, self.chain_id, transfers@, j) by {
                    if opens_block(accts, self.chain_id, transfers@, j) {
                        assert(is_candidate(accts, transfers@, j));
                        let k = choose|k: int| 0 <= k < ranked@.len() && (#[trigger] ranked@[k]).idx == j;
                        assert(!opens_block(accts, self.chain_id, transfers@, ranked@[k].idx as int));
                    }
                }
            }
        }
        good
    }
}

} // verus!
