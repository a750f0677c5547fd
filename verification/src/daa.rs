//! Difficulty adjustment: the blue-work weighted retarget for a new block.
use vstd::prelude::*;
use crate::block::Block;
use crate::chain::ChainState;
use crate::genesis::{era_min_difficulty_with_override, spec_era_min_difficulty, DAA_WINDOW, GENESIS_TIMESTAMP_MS, TARGET_BLOCK_TIME_MS};
use crate::ghostdag::{is_best_of, lemma_best_unique, present_parent_indices, select_parent_idx, DagStore};
use crate::pow::{clamp_nat, retarget_difficulty, spec_retarget};

verus! {

/// A block's DAA sample: its timestamp and its difficulty (at least 1).
pub open spec fn daa_sample(blocks: Seq<Block>, i: int) -> (u64, u64) {
    (blocks[i].timestamp, if blocks[i].difficulty >= 1 { blocks[i].difficulty } else { 1 })
}

/// Samples of the blues `bl[k..]` not yet `seen`, appended to `acc` until the
/// window is full; with the updated seen marks.
pub open spec fn take_blues(blocks: Seq<Block>, bl: Seq<usize>, k: int, seen: Seq<bool>, acc: Seq<(u64, u64)>) -> (Seq<bool>, Seq<(u64, u64)>)
    decreases bl.len() - k,
{
    if k >= bl.len() || acc.len() >= DAA_WINDOW {
        (seen, acc)
    } else if seen[bl[k] as int] {
        take_blues(blocks, bl, k + 1, seen, acc)
    } else {
        take_blues(blocks, bl, k + 1, seen.update(bl[k] as int, true), acc.push(daa_sample(blocks, bl[k] as int)))
    }
}

/// The DAA samples gathered by walking selected parents from `cur`: at each
/// block its mergeset blues (or the block itself when it merged nothing),
/// each block once, until the window is full.
pub open spec fn daa_walk(s: DagStore, blocks: Seq<Block>, cur: int, seen: Seq<bool>, acc: Seq<(u64, u64)>) -> Seq<(u64, u64)>
    decreases cur + 1,
{
    if cur < 0 || cur >= s.len() || acc.len() >= DAA_WINDOW {
        acc
    } else {
        let node = s.nodes@[cur];
        let (seen2, acc2) = take_blues(blocks, node.blues@, 0, seen, acc);
        let (seen3, acc3) = if node.blues@.len() == 0 && !seen2[cur] {
            (seen2.update(cur, true), acc2.push(daa_sample(blocks, cur)))
        } else {
            (seen2, acc2)
        };
        match node.selected_parent {
            Some(p) => if p < cur {
                daa_walk(s, blocks, p as int, seen3, acc3)
            } else {
                acc3
            },
            None => acc3,
        }
    }
}

/// No block seen yet.
pub open spec fn none_seen(n: int) -> Seq<bool> {
    Seq::new(n as nat, |i: int| false)
}

/// The samples for a block whose selected parent is at `sp`.
pub open spec fn daa_samples(s: DagStore, blocks: Seq<Block>, sp: int) -> Seq<(u64, u64)> {
    daa_walk(s, blocks, sp, none_seen(s.len()), Seq::empty())
}

proof fn lemma_take_blues_bounds(blocks: Seq<Block>, bl: Seq<usize>, k: int, seen: Seq<bool>, acc: Seq<(u64, u64)>, n: int)
    requires
        seen.len() == n,
        acc.len() <= DAA_WINDOW,
        0 <= k,
        forall|q: int| 0 <= q < bl.len() ==> (#[trigger] bl[q]) < n,
    ensures
        take_blues(blocks, bl, k, seen, acc).0.len() == n,
        acc.len() <= take_blues(blocks, bl, k, seen, acc).1.len() <= DAA_WINDOW,
    decreases bl.len() - k,
{
    if k < bl.len() && acc.len() < DAA_WINDOW {
        if seen[bl[k] as int] {
            lemma_take_blues_bounds(blocks, bl, k + 1, seen, acc, n);
        } else {
            lemma_take_blues_bounds(blocks, bl, k + 1, seen.update(bl[k] as int, true), acc.push(daa_sample(blocks, bl[k] as int)), n);
        }
    }
}

proof fn lemma_walk_bounds(s: DagStore, blocks: Seq<Block>, cur: int, seen: Seq<bool>, acc: Seq<(u64, u64)>)
    requires
        s.wf(),
        seen.len() == s.len(),
        acc.len() <= DAA_WINDOW,
    ensures
        daa_walk(s, blocks, cur, seen, acc).len() <= DAA_WINDOW,
    decreases cur + 1,
{
    if 0 <= cur < s.len() && acc.len() < DAA_WINDOW {
        let node = s.nodes@[cur];
        assert forall|q: int| 0 <= q < node.blues@.len() implies (#[trigger] node.blues@[q]) < s.len() by {
            assert(s.nodes@[cur].blues@[q] < cur);
        }
        lemma_take_blues_bounds(blocks, node.blues@, 0, seen, acc, s.len());
        let (seen2, acc2) = take_blues(blocks, node.blues@, 0, seen, acc);
        let (seen3, acc3) = if node.blues@.len() == 0 && !seen2[cur] {
            (seen2.update(cur, true), acc2.push(daa_sample(blocks, cur)))
        } else {
            (seen2, acc2)
        };
        if node.blues@.len() == 0 {
            assert(acc2 == acc);
        }
        match node.selected_parent {
            Some(p) => if p < cur {
                lemma_walk_bounds(s, blocks, p as int, seen3, acc3);
            },
            None => {},
        }
    }
}

impl ChainState {
    /// Up to `DAA_WINDOW` `(timestamp, difficulty)` blue samples from the
    /// past of the block at `selected_parent`: walk the selected-parent chain
    /// and at each step take that block's mergeset blues (the block itself
    /// when its mergeset is empty), each block once.
    fn collect_daa_blue_samples(&self, selected_parent: usize) -> (r: Vec<(u64, u64)>)
        requires
            self.wf(),
            selected_parent < self.store.len(),
        ensures
            r@ == daa_samples(self.store, self.blocks@, selected_parent as int),
            r@.len() <= DAA_WINDOW,
    {
        let ghost s = self.store;
        let ghost blocks = self.blocks@;
        let n = self.store.nodes.len();
        let mut seen: Vec<bool> = Vec::new();
        while seen.len() < n
            invariant
                seen@.len() <= n,
                forall|i: int| 0 <= i < seen@.len() ==> !(#[trigger] seen@[i]),
            decreases n - seen@.len(),
        {
            seen.push(false);
        }
        proof {
            assert(seen@ =~= none_seen(s.len()));
            lemma_walk_bounds(s, blocks, selected_parent as int, seen@, Seq::empty());
        }
        let mut samples: Vec<(u64, u64)> = Vec::new();
        let mut cur: usize = selected_parent;
        loop
            invariant_except_break
                self.wf(),
                s == self.store,
                blocks == self.blocks@,
                n == s.len(),
                cur < n,
                seen@.len() == n,
                samples@.len() <= DAA_WINDOW,
                daa_samples(s, blocks, selected_parent as int) == daa_walk(s, blocks, cur as int, seen@, samples@),
            ensures
                daa_samples(s, blocks, selected_parent as int) == samples@,
            decreases cur,
        {
            if samples.len() >= DAA_WINDOW {
                break;
            }
            let ghost seen0 = seen@;
            let ghost acc0 = samples@;
            let bl = &self.store.nodes[cur].blues;
            let mut k: usize = 0;
            proof {
                assert forall|q: int| 0 <= q < bl@.len() implies (#[trigger] bl@[q]) < cur by {
                    assert(s.nodes@[cur as int].blues@[q] < cur);
                }
            }
            while k < bl.len()
                invariant_except_break
                    self.wf(),
                    s == self.store,
                    blocks == self.blocks@,
                    bl == &self.store.nodes@[cur as int].blues,
                    cur < n,
                    n == s.len(),
                    seen@.len() == n,
                    samples@.len() <= DAA_WINDOW,
                    forall|q: int| 0 <= q < bl@.len() ==> (#[trigger] bl@[q]) < cur,
                    take_blues(blocks, bl@, 0, seen0, acc0) == take_blues(blocks, bl@, k as int, seen@, samples@),
                ensures
                    seen@.len() == n,
                    samples@.len() <= DAA_WINDOW,
                    take_blues(blocks, bl@, 0, seen0, acc0) == (seen@, samples@),
                decreases bl@.len() - k,
            {
                if samples.len() >= DAA_WINDOW {
                    break;
                }
                let b = bl[k];
                if !seen[b] {
                    seen.set(b, true);
                    let blk = &self.blocks[b];
                    let d = if blk.difficulty >= 1 { blk.difficulty } else { 1 };
                    samples.push((blk.timestamp, d));
                }
                k = k + 1;
            }
            if bl.len() == 0 && !seen[cur] {
                seen.set(cur, true);
                let blk = &self.blocks[cur];
                let d = if blk.difficulty >= 1 { blk.difficulty } else { 1 };
                samples.push((blk.timestamp, d));
            }
            match self.store.nodes[cur].selected_parent {
                Some(p) => {
                    assert(p < cur);
                    cur = p;
                },
                None => {
                    break;
                },
            }
        }
        samples
    }
}

/// Newest sample timestamp (0 for none).
pub open spec fn newest_ts(v: Seq<(u64, u64)>) -> u64
    decreases v.len(),
{
    if v.len() == 0 {
        0
    } else {
        let m = newest_ts(v.drop_last());
        if v.last().0 > m { v.last().0 } else { m }
    }
}

/// Oldest sample timestamp (0 for none).
pub open spec fn oldest_ts(v: Seq<(u64, u64)>) -> u64
    decreases v.len(),
{
    if v.len() == 0 {
        0
    } else if v.len() == 1 {
        v[0].0
    } else {
        let m = oldest_ts(v.drop_last());
        if v.last().0 < m { v.last().0 } else { m }
    }
}

/// Total work (difficulty sum) of the samples.
pub open spec fn total_work(v: Seq<(u64, u64)>) -> nat
    decreases v.len(),
{
    if v.len() == 0 {
        0
    } else {
        total_work(v.drop_last()) + (v.last().1 as nat)
    }
}

proof fn lemma_work_bound(v: Seq<(u64, u64)>)
    ensures
        total_work(v) <= v.len() * (u64::MAX as nat),
    decreases v.len(),
{
    if v.len() > 0 {
        lemma_work_bound(v.drop_last());
        assert((v.len() - 1) * (u64::MAX as nat) + (u64::MAX as nat) == v.len() * (u64::MAX as nat)) by (nonlinear_arith);
    }
}

/// The larger of two difficulties.
pub open spec fn max_u64(a: u64, b: u64) -> u64 {
    if a >= b { a } else { b }
}

/// The difficulty required of a child of `parents` when `minted` base units
/// have been issued: with no stored parent, the era floor; with too few
/// samples, the selected parent's difficulty; otherwise the retarget of the
/// samples' average work over their time span, clamped to within a quarter
/// of the selected parent's difficulty; never below the era floor.
pub open spec fn daa_difficulty(s: DagStore, blocks: Seq<Block>, lab_easy: bool, minted: u128, parents: Seq<crate::hash::Hash>) -> u64 {
    let floor = spec_era_min_difficulty(lab_easy, minted as nat);
    let p = s.present_indices(parents);
    if p.len() == 0 {
        floor
    } else {
        let sp = choose|sp: usize| is_best_of(s, p, sp);
        let spd = max_u64(blocks[sp as int].difficulty, floor);
        let v = daa_samples(s, blocks, sp as int);
        let daa = if v.len() < DAA_WINDOW {
            spd
        } else {
            let avg = max_u64((total_work(v) / v.len()) as u64, floor);
            let scaled = spec_retarget(avg, newest_ts(v), oldest_ts(v), floor);
            let up: nat = if spd * 5 / 4 >= spd + 1 { (spd * 5 / 4) as nat } else { (spd + 1) as nat };
            let down: nat = if spd * 3 / 4 >= floor { (spd * 3 / 4) as nat } else { floor as nat };
            clamp_nat(scaled as nat, down, up) as u64
        };
        max_u64(daa, floor)
    }
}

/// Latest timestamp among the stored parents (the genesis time when none is
/// stored).
pub open spec fn parents_time(s: DagStore, blocks: Seq<Block>, p: Seq<usize>) -> u64
    decreases p.len(),
{
    if p.len() == 0 {
        GENESIS_TIMESTAMP_MS
    } else {
        let m = parents_time(s, blocks, p.drop_last());
        let t = blocks[p.last() as int].timestamp;
        if p.len() == 1 || t > m { t } else { m }
    }
}

fn sample_stats(v: &Vec<(u64, u64)>) -> (r: (u64, u64, u128))
    requires
        v@.len() <= DAA_WINDOW,
    ensures
        r.0 == newest_ts(v@),
        r.1 == oldest_ts(v@),
        r.2 == total_work(v@),
{
    let mut newest: u64 = 0;
    let mut oldest: u64 = 0;
    let mut work: u128 = 0;
    let mut k: usize = 0;
    while k < v.len()
        invariant
            k <= v@.len(),
            v@.len() <= DAA_WINDOW,
            newest == newest_ts(v@.take(k as int)),
            oldest == oldest_ts(v@.take(k as int)),
            work == total_work(v@.take(k as int)),
        decreases v@.len() - k,
    {
        proof {
            assert(v@.take(k + 1).drop_last() =~= v@.take(k as int));
            assert(v@.take(k + 1).last() == v@[k as int]);
            lemma_work_bound(v@.take(k as int));
            assert(k * (u64::MAX as nat) <= 661 * (u64::MAX as nat)) by (nonlinear_arith)
                requires k <= 661;
        }
        let (t, d) = v[k];
        if t > newest {
            newest = t;
        }
        if k == 0 || t < oldest {
            oldest = t;
        }
        work = work + d as u128;
        k = k + 1;
    }
    proof {
        assert(v@.take(v@.len() as int) =~= v@);
    }
    (newest, oldest, work)
}

impl ChainState {
    /// The difficulty required of a child of `parents` at `timestamp_ms`
    /// (consensus validation uses the block's claimed time): a blue-work
    /// weighted retarget over up to `DAA_WINDOW` blue samples from the
    /// selected parent's past, clamped to ±25% of the selected parent's
    /// difficulty, never below the supply-era floor.
    pub fn expected_difficulty_at(&self, parents: &[crate::hash::Hash], timestamp_ms: u64) -> (r: u64)
        requires
            self.wf(),
        ensures
            r == daa_difficulty(self.store, self.blocks@, self.lab_easy_pow, self.minted_supply, parents@),
            r >= spec_era_min_difficulty(self.lab_easy_pow, self.minted_supply as nat),
    {
        let floor = era_min_difficulty_with_override(self.lab_easy_pow, self.minted_supply, timestamp_ms);
        let p = present_parent_indices(&self.store, parents);
        if p.len() == 0 {
            return floor;
        }
        let sp = select_parent_idx(&self.store, &p);
        proof {
            assert forall|x: usize| is_best_of(self.store, p@, x) implies x == sp by {
                lemma_best_unique(self.store, p@, x, sp);
            }
        }
        let bd = self.blocks[sp].difficulty;
        let sp_difficulty: u64 = if bd >= floor { bd } else { floor };
        let samples = self.collect_daa_blue_samples(sp);
        let daa: u64 = if samples.len() < DAA_WINDOW {
            sp_difficulty
        } else {
            let (newest, oldest, work) = sample_stats(&samples);
            let cnt = samples.len() as u128;
            proof {
                lemma_work_bound(samples@);
                assert(work / cnt <= u64::MAX) by (nonlinear_arith)
                    requires
                        work <= cnt * (u64::MAX as nat),
                        cnt > 0,
                ;
            }
            let a = (work / cnt) as u64;
            let avg_diff: u64 = if a >= floor { a } else { floor };
            let scaled = retarget_difficulty(avg_diff, newest, oldest, floor);
            let spd = sp_difficulty as u128;
            let up5 = spd * 5 / 4;
            let up: u128 = if up5 >= spd + 1 { up5 } else { spd + 1 };
            let down3 = spd * 3 / 4;
            let down: u128 = if down3 >= floor as u128 { down3 } else { floor as u128 };
            let x = scaled as u128;
            let c: u128 = if x < down { down } else if x > up { up } else { x };
            assert(c <= u64::MAX);
            c as u64
        };
        if daa >= floor { daa } else { floor }
    }

    /// The difficulty required of a child of `parents` stamped one target
    /// block time after its latest stored parent (the genesis time when no
    /// parent is stored).
    pub fn expected_difficulty(&self, parents: &[crate::hash::Hash]) -> (r: u64)
        requires
            self.wf(),
        ensures
            r == daa_difficulty(self.store, self.blocks@, self.lab_easy_pow, self.minted_supply, parents@),
    {
        let p = present_parent_indices(&self.store, parents);
        let mut ts: u64 = GENESIS_TIMESTAMP_MS;
        let mut k: usize = 0;
        while k < p.len()
            invariant
                k <= p@.len(),
                self.wf(),
                forall|q: int| 0 <= q < p@.len() ==> (#[trigger] p@[q]) < self.store.len(),
                ts == parents_time(self.store, self.blocks@, p@.take(k as int)),
            decreases p@.len() - k,
        {
            proof {
                assert(p@.take(k + 1).drop_last() =~= p@.take(k as int));
                assert(p@.take(k + 1).last() == p@[k as int]);
            }
            let t = self.blocks[p[k]].timestamp;
            if k == 0 || t > ts {
                ts = t;
            }
            k = k + 1;
        }
        self.expected_difficulty_at(parents, ts.saturating_add(TARGET_BLOCK_TIME_MS))
    }
}

} // verus!
