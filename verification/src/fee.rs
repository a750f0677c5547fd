//! Confirmation-target fee history: rolling per-block fee-rate samples and
//! the "greater-all-passed" success walk that turns them into an estimate.

use vstd::prelude::*;

verus! {

/// Confirmation-target distances (blue score) for fee estimates.
pub const FEE_TARGET_HIGH_BLUES: u64 = 6;
pub const FEE_TARGET_MEDIUM_BLUES: u64 = 20;
pub const FEE_TARGET_LOW_BLUES: u64 = 100;

/// Share of in-window confirmations a fee rate needs (85 %).
pub const SUCCESS_PCT_NUM: u64 = 85;
pub const SUCCESS_PCT_DEN: u64 = 100;

/// One selected-chain block's fee-rate samples.
#[derive(Clone, Debug)]
pub struct FeeBlockSample {
    pub blue_score: u64,
    /// Fee rates (base units per relay byte) of the transfers in the block.
    pub feerates: Vec<u128>,
    /// Confirmation lag in blues from first-seen, aligned with `feerates`;
    /// a missing entry counts as immediate (0).
    pub confirm_blues: Vec<u64>,
}

/// Ring of recent block fee samples.
#[derive(Clone, Debug)]
pub struct FeeRateHistory {
    pub samples: Vec<FeeBlockSample>,
    pub max_blocks: usize,
}

impl Default for FeeRateHistory {
    fn default() -> (r: Self)
        ensures
            r.samples@.len() == 0,
            r.max_blocks == 500,
    {
        FeeRateHistory { samples: Vec::new(), max_blocks: 500 }
    }
}

/// Observations of one sample: `(rate, confirmed within target)`.
pub open spec fn sample_points(s: FeeBlockSample, target: u64) -> Seq<(u128, bool)> {
    Seq::new(
        s.feerates@.len(),
        |i: int|
            (s.feerates@[i], (if i < s.confirm_blues@.len() {
                s.confirm_blues@[i]
            } else {
                0u64
            }) <= target),
    )
}

/// Observations of all samples, oldest first.
pub open spec fn history_points(samples: Seq<FeeBlockSample>, target: u64) -> Seq<(u128, bool)>
    decreases samples.len(),
{
    if samples.len() == 0 {
        Seq::empty()
    } else {
        history_points(samples.drop_last(), target) + sample_points(samples.last(), target)
    }
}

/// Number of observations at rate `>= c`.
pub open spec fn count_ge(pts: Seq<(u128, bool)>, c: u128) -> nat
    decreases pts.len(),
{
    if pts.len() == 0 {
        0
    } else {
        count_ge(pts.drop_last(), c) + if pts.last().0 >= c {
            1nat
        } else {
            0nat
        }
    }
}

/// Number of in-window observations at rate `>= c`.
pub open spec fn ok_ge(pts: Seq<(u128, bool)>, c: u128) -> nat
    decreases pts.len(),
{
    if pts.len() == 0 {
        0
    } else {
        ok_ge(pts.drop_last(), c) + if pts.last().0 >= c && pts.last().1 {
            1nat
        } else {
            0nat
        }
    }
}

/// Whether `r` occurs as a rate among the observations.
pub open spec fn is_rate(pts: Seq<(u128, bool)>, r: u128) -> bool {
    exists|i: int| 0 <= i < pts.len() && pts[i].0 == r
}

/// Rate `c` clears the 85 % success threshold.
pub open spec fn passes(pts: Seq<(u128, bool)>, c: u128) -> bool {
    ok_ge(pts, c) * (SUCCESS_PCT_DEN as nat) >= count_ge(pts, c) * (SUCCESS_PCT_NUM as nat)
}

/// Every observed rate in `[lo, hi]` passes.
pub open spec fn run_passes(pts: Seq<(u128, bool)>, lo: u128, hi: u128) -> bool {
    forall|r: u128| #[trigger] is_rate(pts, r) && lo <= r <= hi ==> passes(pts, r)
}

/// `t` is the highest passing observed rate.
pub open spec fn is_top_pass(pts: Seq<(u128, bool)>, t: u128) -> bool {
    &&& is_rate(pts, t)
    &&& passes(pts, t)
    &&& forall|r: u128| #[trigger] is_rate(pts, r) && passes(pts, r) ==> r <= t
}

/// The success walk: from the highest passing observed rate downward, the
/// lowest observed rate reached before the first failing one.
pub open spec fn walk_result(pts: Seq<(u128, bool)>, res: Option<u128>) -> bool {
    match res {
        None => forall|r: u128| #[trigger] is_rate(pts, r) ==> !passes(pts, r),
        Some(l) => exists|t: u128|
            {
                &&& #[trigger] is_top_pass(pts, t)
                &&& is_rate(pts, l)
                &&& l <= t
                &&& run_passes(pts, l, t)
                &&& forall|r: u128| #[trigger] is_rate(pts, r) && r < l ==> !run_passes(pts, r, t)
            },
    }
}

impl FeeRateHistory {
    /// Append a block's samples (blocks with no fee rates are skipped), then
    /// keep only the newest `max(max_blocks, 1)` samples.
    pub fn record(&mut self, blue_score: u64, feerates: Vec<u128>, confirm_blues: Vec<u64>)
        ensures
            final(self).max_blocks == old(self).max_blocks,
            feerates@.len() == 0 ==> final(self).samples@ == old(self).samples@,
            feerates@.len() > 0 ==> {
                let pushed = old(self).samples@.push(
                    FeeBlockSample { blue_score, feerates, confirm_blues },
                );
                let max: int = if old(self).max_blocks >= 1 {
                    old(self).max_blocks as int
                } else {
                    1
                };
                final(self).samples@ == if pushed.len() > max {
                    pushed.skip(pushed.len() - max)
                } else {
                    pushed
                }
            },
    {
        if feerates.len() == 0 {
            return ;
        }
        self.samples.push(FeeBlockSample { blue_score, feerates, confirm_blues });
        let max = if self.max_blocks >= 1 {
            self.max_blocks
        } else {
            1
        };
        if self.samples.len() > max {
            let drop = self.samples.len() - max;
            let kept = self.samples.split_off(drop);
            self.samples = kept;
        }
    }

    /// Minimum fee rate that historically confirmed within `target_blues` of
    /// first-seen, or `None` when no observed rate clears the threshold.
    pub fn estimate_for_target(&self, target_blues: u64) -> (r: Option<u128>)
        ensures
            walk_result(history_points(self.samples@, target_blues), r),
    {
        let extra: Vec<(u128, bool)> = Vec::new();
        let r = self.estimate_for_target_with_extra(target_blues, extra.as_slice());
        proof {
            assert(history_points(self.samples@, target_blues) + extra@ =~= history_points(
                self.samples@,
                target_blues,
            ));
        }
        r
    }

    /// Same as [`estimate_for_target`], with extra `(rate, confirmed_in_window)`
    /// observations appended.
    pub fn estimate_for_target_with_extra(&self, target_blues: u64, extra: &[(u128, bool)]) -> (r:
        Option<u128>)
        ensures
            walk_result(history_points(self.samples@, target_blues) + extra@, r),
    {
        let points = collect_points(&self.samples, target_blues, extra);
        success_walk(&points)
    }
}

/// All observations of the history followed by `extra`.
fn collect_points(samples: &Vec<FeeBlockSample>, target: u64, extra: &[(u128, bool)]) -> (r: Vec<(
    u128,
    bool,
)>)
    ensures
        r@ == history_points(samples@, target) + extra@,
{
    let mut points: Vec<(u128, bool)> = Vec::new();
    let mut k: usize = 0;
    proof {
        assert(samples@.take(0) =~= Seq::<FeeBlockSample>::empty());
    }
    while k < samples.len()
        invariant
            k <= samples@.len(),
            points@ == history_points(samples@.take(k as int), target),
        decreases samples@.len() - k,
    {
        let s = &samples[k];
        let ghost before = points@;
        let mut i: usize = 0;
        while i < s.feerates.len()
            invariant
                i <= s.feerates@.len(),
                *s == samples@[k as int],
                points@ == before + sample_points(*s, target).take(i as int),
            decreases s.feerates@.len() - i,
        {
            let lag: u64 = if i < s.confirm_blues.len() {
                s.confirm_blues[i]
            } else {
                0
            };
            points.push((s.feerates[i], lag <= target));
            proof {
                assert(sample_points(*s, target).take(i + 1) =~= sample_points(*s, target).take(
                    i as int,
                ).push((s.feerates@[i as int], lag <= target)));
            }
            i = i + 1;
        }
        proof {
            assert(sample_points(*s, target).take(i as int) =~= sample_points(*s, target));
            assert(samples@.take(k + 1).drop_last() =~= samples@.take(k as int));
            assert(samples@.take(k + 1).last() == samples@[k as int]);
        }
        k = k + 1;
    }
    proof {
        assert(samples@.take(samples@.len() as int) =~= samples@);
    }
    let ghost hist = points@;
    let mut j: usize = 0;
    while j < extra.len()
        invariant
            j <= extra@.len(),
            points@ == hist + extra@.take(j as int),
        decreases extra@.len() - j,
    {
        points.push(extra[j]);
        proof {
            assert(extra@.take(j + 1) =~= extra@.take(j as int).push(extra@[j as int]));
        }
        j = j + 1;
    }
    proof {
        assert(extra@.take(extra@.len() as int) =~= extra@);
    }
    points
}

/// Counts of observations at rate `>= c`: `(total, in_window)`.
fn count_at_or_above(pts: &Vec<(u128, bool)>, c: u128) -> (r: (u64, u64))
    requires
        pts@.len() < 0x1_0000_0000_0000_0000,
    ensures
        r.0 as nat == count_ge(pts@, c),
        r.1 as nat == ok_ge(pts@, c),
{
    let mut total: u64 = 0;
    let mut ok: u64 = 0;
    let mut i: usize = 0;
    proof {
        assert(pts@.take(0) =~= Seq::<(u128, bool)>::empty());
    }
    while i < pts.len()
        invariant
            i <= pts@.len() < 0x1_0000_0000_0000_0000,
            total as nat == count_ge(pts@.take(i as int), c),
            ok as nat == ok_ge(pts@.take(i as int), c),
            total <= i,
            ok <= total,
        decreases pts@.len() - i,
    {
        let (rate, success) = pts[i];
        proof {
            assert(pts@.take(i + 1).drop_last() =~= pts@.take(i as int));
            assert(pts@.take(i + 1).last() == pts@[i as int]);
        }
        if rate >= c {
            total = total + 1;
            if success {
                ok = ok + 1;
            }
        }
        i = i + 1;
    }
    proof {
        assert(pts@.take(pts@.len() as int) =~= pts@);
    }
    (total, ok)
}

/// The highest observed rate strictly below `bound` (any rate when `bound`
/// is `None`).
fn next_rate_below(pts: &Vec<(u128, bool)>, bound: Option<u128>) -> (r: Option<u128>)
    ensures
        match r {
            Some(x) => is_rate(pts@, x) && (bound matches Some(b) ==> x < b) && forall|y: u128|
                #[trigger] is_rate(pts@, y) && (bound matches Some(b) ==> y < b) ==> y <= x,
            None => forall|y: u128| #[trigger] is_rate(pts@, y) ==> (bound matches Some(b) && y >= b),
        },
{
    let mut best: Option<u128> = None;
    let mut i: usize = 0;
    while i < pts.len()
        invariant
            i <= pts@.len(),
            match best {
                Some(x) => is_rate(pts@, x) && (bound matches Some(b) ==> x < b) && forall|j: int|
                    0 <= j < i && (bound matches Some(b) ==> #[trigger] pts@[j].0 < b) ==> pts@[j].0 <= x,
                None => forall|j: int| 0 <= j < i ==> (bound matches Some(b) && #[trigger] pts@[j].0 >= b),
            },
        decreases pts@.len() - i,
    {
        let rate = pts[i].0;
        let below = match bound {
            Some(b) => rate < b,
            None => true,
        };
        if below {
            match best {
                Some(x) => {
                    if rate > x {
                        best = Some(rate);
                    }
                },
                None => {
                    best = Some(rate);
                },
            }
        }
        i = i + 1;
    }
    best
}

/// With no in-window observations at all, no rate can pass.
proof fn lemma_ok_ge_le_count(pts: Seq<(u128, bool)>, c: u128)
    ensures
        ok_ge(pts, c) <= count_ge(pts, c),
    decreases pts.len(),
{
    if pts.len() > 0 {
        lemma_ok_ge_le_count(pts.drop_last(), c);
    }
}

/// The greater-all-passed walk over the distinct observed rates, high to low.
fn success_walk(pts: &Vec<(u128, bool)>) -> (r: Option<u128>)
    ensures
        walk_result(pts@, r),
{
    let n = pts.len();
    let mut last_pass: Option<u128> = None;
    let mut prev: Option<u128> = None;
    let ghost mut top: u128 = 0;
    loop
        invariant
            pts@.len() == n,
            // Every observed rate at or above `prev` has been examined.
            last_pass is None ==> forall|y: u128|
                #[trigger] is_rate(pts@, y) && (prev matches Some(p) && y >= p) ==> !passes(pts@, y),
            last_pass matches Some(l) ==> {
                &&& prev == Some(l)
                &&& is_rate(pts@, top)
                &&& passes(pts@, top)
                &&& forall|y: u128| #[trigger] is_rate(pts@, y) && y > top ==> !passes(pts@, y)
                &&& is_rate(pts@, l)
                &&& l <= top
                &&& run_passes(pts@, l, top)
            },
        decreases (match prev {
            Some(p) => p as int,
            None => 0x1_0000_0000_0000_0000_0000_0000_0000_0000int,
        }),
    {
        let next = next_rate_below(pts, prev);
        match next {
            None => {
                proof {
                    if let Some(l) = last_pass {
                        assert(is_top_pass(pts@, top));
                    }
                }
                return last_pass;
            },
            Some(c) => {
                let (total, ok) = count_at_or_above(pts, c);
                let pass = (ok as u128) * (SUCCESS_PCT_DEN as u128) >= (total as u128) * (
                SUCCESS_PCT_NUM as u128);
                if pass {
                    proof {
                        if last_pass is None {
                            top = c;
                        }
                    }
                    last_pass = Some(c);
                } else if last_pass.is_some() {
                    proof {
                        let l = last_pass->0;
                        assert(is_top_pass(pts@, top));
                        assert forall|r: u128| #[trigger] is_rate(pts@, r) && r < l implies !run_passes(
                            pts@,
                            r,
                            top,
                        ) by {
                            assert(is_rate(pts@, c) && r <= c && c <= top && !passes(pts@, c));
                        }
                    }
                    return last_pass;
                }
                prev = Some(c);
            },
        }
    }
}

} // verus!
