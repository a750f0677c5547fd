//! Proof-of-work targets, the difficulty-adjustment formula, and fee floors.

use vstd::prelude::*;
use vstd::arithmetic::power::pow;
use crate::bytes::lex_lt;
use crate::crypto::{PQ_PUBLIC_KEY_SIZE, PQ_SIGNATURE_SIZE};
use crate::genesis::{DAA_WINDOW, MIN_FEE_PER_BYTE, MIN_TX_FEE, TARGET_BLOCK_TIME_MS};

verus! {

/// Minimum fee for `nbytes` on the wire: `max(MIN_TX_FEE, nbytes × MIN_FEE_PER_BYTE)`.
pub open spec fn spec_min_relay_fee(nbytes: nat) -> nat {
    let by_size = nbytes * (MIN_FEE_PER_BYTE as nat);
    if by_size >= MIN_TX_FEE as nat {
        by_size
    } else {
        MIN_TX_FEE as nat
    }
}

/// Minimum fee for a transfer of `nbytes` on the wire.
pub fn min_relay_fee_for_bytes(nbytes: usize) -> (r: u128)
    ensures
        r as nat == spec_min_relay_fee(nbytes as nat),
{
    let by_size = (nbytes as u128) * MIN_FEE_PER_BYTE;
    if by_size >= MIN_TX_FEE {
        by_size
    } else {
        MIN_TX_FEE
    }
}

/// Conservative floor for a fully signed ML-DSA-87 transfer
/// (public key + signature + 512 bytes of addresses and amounts).
pub fn typical_signed_tx_min_fee() -> (r: u128)
    ensures
        r as nat == spec_min_relay_fee((PQ_PUBLIC_KEY_SIZE + PQ_SIGNATURE_SIZE + 512) as nat),
{
    min_relay_fee_for_bytes(PQ_PUBLIC_KEY_SIZE + PQ_SIGNATURE_SIZE + 512)
}

/// Big-endian value of a byte string.
pub open spec fn be_value(s: Seq<u8>) -> nat
    decreases s.len(),
{
    if s.len() == 0 {
        0
    } else {
        be_value(s.drop_last()) * 256 + (s.last() as nat)
    }
}

/// The 64 all-ones bytes of the easiest target.
pub open spec fn max_target_bytes() -> Seq<u8> {
    Seq::new(64, |i: int| 255u8)
}

/// Numeric value of the proof-of-work target for `difficulty`:
/// `MAX_TARGET / max(difficulty, 1)`.
pub open spec fn spec_pow_target_value(difficulty: u64) -> nat {
    let d: nat = if difficulty == 0 {
        1
    } else {
        difficulty as nat
    };
    be_value(max_target_bytes()) / d
}

/// A byte string below `256^len` in value.
proof fn lemma_be_value_bound(s: Seq<u8>)
    ensures
        be_value(s) < pow(256, s.len()),
    decreases s.len(),
{
    vstd::arithmetic::power::lemma_pow0(256);
    if s.len() > 0 {
        lemma_be_value_bound(s.drop_last());
        vstd::arithmetic::power::lemma_pow_adds(256, (s.len() - 1) as nat, 1);
        vstd::arithmetic::power::lemma_pow1(256);
        let p = pow(256, (s.len() - 1) as nat);
        assert(be_value(s.drop_last()) * 256 + (s.last() as nat) < p * 256) by (nonlinear_arith)
            requires
                be_value(s.drop_last()) < p,
                s.last() < 256,
        ;
    }
}

/// Big-endian value of a concatenation.
proof fn lemma_be_value_append(a: Seq<u8>, b: Seq<u8>)
    ensures
        be_value(a + b) == be_value(a) * pow(256, b.len()) + be_value(b),
    decreases b.len(),
{
    vstd::arithmetic::power::lemma_pow0(256);
    if b.len() == 0 {
        assert(a + b =~= a);
    } else {
        assert((a + b).drop_last() =~= a + b.drop_last());
        lemma_be_value_append(a, b.drop_last());
        vstd::arithmetic::power::lemma_pow_adds(256, (b.len() - 1) as nat, 1);
        vstd::arithmetic::power::lemma_pow1(256);
        let p = pow(256, (b.len() - 1) as nat);
        assert((be_value(a) * p + be_value(b.drop_last())) * 256 + (b.last() as nat) == be_value(a) * (p
            * 256) + (be_value(b.drop_last()) * 256 + (b.last() as nat))) by (nonlinear_arith);
    }
}

/// For equal lengths, lexicographic order is numeric order.
pub proof fn lemma_lex_lt_is_numeric(a: Seq<u8>, b: Seq<u8>)
    requires
        a.len() == b.len(),
    ensures
        lex_lt(a, b) == (be_value(a) < be_value(b)),
    decreases a.len(),
{
    if a.len() > 0 {
        let ta = a.drop_first();
        let tb = b.drop_first();
        lemma_lex_lt_is_numeric(ta, tb);
        assert(a =~= seq![a[0]] + ta);
        assert(b =~= seq![b[0]] + tb);
        lemma_be_value_append(seq![a[0]], ta);
        lemma_be_value_append(seq![b[0]], tb);
        assert(seq![a[0]].drop_last() =~= Seq::<u8>::empty());
        assert(seq![b[0]].drop_last() =~= Seq::<u8>::empty());
        assert(be_value(Seq::<u8>::empty()) == 0);
        assert(seq![a[0]].last() == a[0]);
        assert(seq![b[0]].last() == b[0]);
        assert(be_value(seq![a[0]]) == a[0] as nat);
        assert(be_value(seq![b[0]]) == b[0] as nat);
        lemma_be_value_bound(ta);
        lemma_be_value_bound(tb);
        let p = pow(256, ta.len());
        if a[0] < b[0] {
            assert(a[0] as nat * p + be_value(ta) < b[0] as nat * p + be_value(tb)) by (nonlinear_arith)
                requires
                    a[0] < b[0],
                    be_value(ta) < p,
            ;
        } else if a[0] > b[0] {
            assert(a[0] as nat * p + be_value(ta) > b[0] as nat * p + be_value(tb)) by (nonlinear_arith)
                requires
                    a[0] > b[0],
                    be_value(tb) < p,
            ;
        }
    } else {
        assert(be_value(a) == 0 && be_value(b) == 0);
    }
}

/// Full 512-bit proof-of-work target for a difficulty: `MAX_TARGET / max(d, 1)`,
/// as 64 big-endian bytes. A valid block hash must be strictly below it.
pub fn pow_target(difficulty: u64) -> (r: crate::hash::Hash)
    ensures
        r@.len() == 64,
        be_value(r@) == spec_pow_target_value(difficulty),
{
    let d: u128 = if difficulty == 0 {
        1
    } else {
        difficulty as u128
    };
    let ghost input = max_target_bytes();
    let mut out = [0u8; 64];
    let mut rem: u128 = 0;
    let mut i: usize = 0;
    proof {
        assert(input.take(0) =~= Seq::<u8>::empty());
        assert(out@.take(0) =~= Seq::<u8>::empty());
        assert(be_value(Seq::<u8>::empty()) == 0);
        assert(0 * d == 0);
    }
    while i < 64
        invariant
            i <= 64,
            1 <= d < 0x1_0000_0000_0000_0000,
            rem < d,
            input == max_target_bytes(),
            be_value(input.take(i as int)) == be_value(out@.take(i as int)) * d + rem,
        decreases 64 - i,
    {
        let cur: u128 = rem * 256 + 255;
        let q: u128 = cur / d;
        let r2: u128 = cur % d;
        proof {
            assert(cur < d * 256) by (nonlinear_arith)
                requires
                    rem < d,
                    cur == rem * 256 + 255,
            ;
            vstd::arithmetic::div_mod::lemma_fundamental_div_mod(cur as int, d as int);
            assert(q < 256) by (nonlinear_arith)
                requires
                    cur < d * 256,
                    q == cur / d,
                    d >= 1,
            ;
        }
        let ghost before = out@;
        out[i] = q as u8;
        proof {
            assert(input.take(i + 1).drop_last() =~= input.take(i as int));
            assert(input.take(i + 1).last() == 255u8);
            assert(out@.take(i + 1).drop_last() =~= out@.take(i as int));
            assert(out@.take(i as int) =~= before.take(i as int));
            assert(out@.take(i + 1).last() == q as u8);
            let bo = be_value(out@.take(i as int));
            assert((bo * d + rem) * 256 + 255 == (bo * 256 + q) * d + r2) by (nonlinear_arith)
                requires
                    cur == rem * 256 + 255,
                    cur == q * d + r2,
            ;
        }
        rem = r2;
        i = i + 1;
    }
    proof {
        assert(input.take(64) =~= input);
        assert(out@.take(64) =~= out@);
        vstd::arithmetic::div_mod::lemma_fundamental_div_mod_converse_div(
            be_value(input) as int,
            d as int,
            be_value(out@) as int,
            rem as int,
        );
    }
    crate::hash::Hash(out)
}

/// Whether `hash`, read big-endian, is strictly below `target`.
pub fn hash_meets_target(hash: &crate::hash::Hash, target: &crate::hash::Hash) -> (r: bool)
    ensures
        r == lex_lt(hash@, target@),
{
    hash.less_than(target)
}

/// Proof-of-work predicate: the hash is below the target for `difficulty`.
pub open spec fn spec_verify_pow(hash: Seq<u8>, difficulty: u64) -> bool {
    be_value(hash) < spec_pow_target_value(difficulty)
}

/// One-shot proof-of-work check.
pub fn verify_pow(hash: &crate::hash::Hash, difficulty: u64) -> (r: bool)
    ensures
        r == spec_verify_pow(hash@, difficulty),
{
    let t = pow_target(difficulty);
    proof {
        lemma_lex_lt_is_numeric(hash@, t@);
    }
    hash_meets_target(hash, &t)
}

/// Law: a hash that meets a difficulty meets every lower difficulty.
pub proof fn law_pow_monotone(hash: Seq<u8>, easy: u64, hard: u64)
    requires
        easy <= hard,
        spec_verify_pow(hash, hard),
    ensures
        spec_verify_pow(hash, easy),
{
    let de: nat = if easy == 0 { 1 } else { easy as nat };
    let dh: nat = if hard == 0 { 1 } else { hard as nat };
    vstd::arithmetic::div_mod::lemma_div_is_ordered_by_denominator(
        be_value(max_target_bytes()) as int,
        de as int,
        dh as int,
    );
}

/// Law: the target never grows with difficulty.
pub proof fn law_pow_target_shrinks(easy: u64, hard: u64)
    requires
        easy <= hard,
    ensures
        spec_pow_target_value(hard) <= spec_pow_target_value(easy),
{
    let de: nat = if easy == 0 { 1 } else { easy as nat };
    let dh: nat = if hard == 0 { 1 } else { hard as nat };
    vstd::arithmetic::div_mod::lemma_div_is_ordered_by_denominator(
        be_value(max_target_bytes()) as int,
        de as int,
        dh as int,
    );
}

/// `x` clamped into `[lo, hi]` (`Ord::clamp` with `lo <= hi`).
pub open spec fn clamp_nat(x: nat, lo: nat, hi: nat) -> nat {
    if x < lo {
        lo
    } else if x > hi {
        hi
    } else {
        x
    }
}

/// The DAA retarget: `base × target_span / actual_span`, clamped to
/// `[max(3/4·base, floor), max(5/4·base, base + 1)]`, then floored at `floor`
/// (the clamped value is narrowed to `u64` by truncation).
pub open spec fn spec_retarget(base_difficulty: u64, newest_ts: u64, oldest_ts: u64, floor: u64) -> u64 {
    let span: nat = if newest_ts > oldest_ts {
        (newest_ts - oldest_ts) as nat
    } else {
        0
    };
    let actual: nat = if span == 0 {
        1
    } else {
        span
    };
    let target_span: nat = (DAA_WINDOW as nat) * (TARGET_BLOCK_TIME_MS as nat);
    let sp: nat = if base_difficulty >= floor {
        base_difficulty as nat
    } else {
        floor as nat
    };
    let raw = sp * target_span / actual;
    let up = if sp * 5 / 4 >= sp + 1 {
        sp * 5 / 4
    } else {
        sp + 1
    };
    let down = if sp * 3 / 4 >= floor as nat {
        sp * 3 / 4
    } else {
        floor as nat
    };
    let narrowed = (clamp_nat(raw, down, up) % 0x1_0000_0000_0000_0000) as u64;
    if narrowed >= floor {
        narrowed
    } else {
        floor
    }
}

/// The difficulty-adjustment retarget formula.
pub fn retarget_difficulty(base_difficulty: u64, newest_ts: u64, oldest_ts: u64, floor: u64) -> (r: u64)
    ensures
        r == spec_retarget(base_difficulty, newest_ts, oldest_ts, floor),
        r >= floor,
{
    let span = newest_ts.saturating_sub(oldest_ts);
    let actual_span_ms: u64 = if span >= 1 {
        span
    } else {
        1
    };
    let target_span_ms: u64 = (DAA_WINDOW as u64) * TARGET_BLOCK_TIME_MS;
    let sp: u128 = if base_difficulty >= floor {
        base_difficulty as u128
    } else {
        floor as u128
    };
    proof {
        assert(sp * (target_span_ms as u128) < 0x1_0000_0000_0000_0000 * 66100) by (nonlinear_arith)
            requires
                sp < 0x1_0000_0000_0000_0000,
                target_span_ms == 66100,
        ;
    }
    let raw: u128 = sp * (target_span_ms as u128) / (actual_span_ms as u128);
    let up5: u128 = sp * 5 / 4;
    let up: u128 = if up5 >= sp + 1 {
        up5
    } else {
        sp + 1
    };
    let down3: u128 = sp * 3 / 4;
    let down: u128 = if down3 >= floor as u128 {
        down3
    } else {
        floor as u128
    };
    let clamped: u128 = if raw < down {
        down
    } else if raw > up {
        up
    } else {
        raw
    };
    let narrowed: u64 = #[verifier::truncate] (clamped as u64);
    proof {
        assert(narrowed == clamped % 0x1_0000_0000_0000_0000) by (bit_vector)
            requires
                narrowed == clamped as u64,
        ;
    }
    if narrowed >= floor {
        narrowed
    } else {
        floor
    }
}

/// One window of the hop clamp: the upper bound grows by 5/4 (at least +1),
/// the lower bound shrinks by 3/4 (never below `floor`).
pub open spec fn hop_step(lo: nat, hi: nat, floor: nat) -> (nat, nat) {
    let hi2 = if hi * 5 / 4 >= hi + 1 {
        hi * 5 / 4
    } else {
        hi + 1
    };
    let lo2 = if lo * 3 / 4 >= floor {
        lo * 3 / 4
    } else {
        floor
    };
    (lo2, hi2)
}

/// `n` windows of the hop clamp starting from `(base, base)`.
pub open spec fn hop_iter(base: nat, floor: nat, n: nat) -> (nat, nat)
    decreases n,
{
    if n == 0 {
        (base, base)
    } else {
        let p = hop_iter(base, floor, (n - 1) as nat);
        hop_step(p.0, p.1, floor)
    }
}

/// Number of DAA windows a height gap spans, capped at 64.
pub open spec fn hop_windows(height_gap: u64) -> nat {
    let g: nat = if height_gap >= 1 {
        (height_gap - 1) as nat
    } else {
        0
    };
    let w = g / (DAA_WINDOW as nat) + 1;
    if w <= 64 {
        w
    } else {
        64
    }
}

/// Difficulty bounds `(lo, hi)` for an omitted-hop header given an older
/// verified hop: the ±25 % per-window clamp applied once per window of the
/// gap (at most 64 windows); `lo` is at least `floor`, `hi` is narrowed to `u64`.
pub open spec fn spec_hop_bounds(older_diff: u64, height_gap: u64, floor: u64) -> (u64, u64) {
    let base: nat = if older_diff >= floor {
        older_diff as nat
    } else {
        floor as nat
    };
    let p = hop_iter(base, floor as nat, hop_windows(height_gap));
    let lo = (p.0 % 0x1_0000_0000_0000_0000) as u64;
    (if lo >= floor {
        lo
    } else {
        floor
    }, (p.1 % 0x1_0000_0000_0000_0000) as u64)
}

proof fn lemma_pow_5_4_step(k: nat)
    ensures
        pow(5, k) <= pow(2, (k + 2) / 3) * pow(4, k),
    decreases k,
{
    vstd::arithmetic::power::lemma_pow0(5);
    vstd::arithmetic::power::lemma_pow0(4);
    vstd::arithmetic::power::lemma_pow0(2);
    vstd::arithmetic::power::lemma_pow1(5);
    vstd::arithmetic::power::lemma_pow1(4);
    vstd::arithmetic::power::lemma_pow1(2);
    if k == 0 {
    } else if k == 1 {
    } else if k == 2 {
        vstd::arithmetic::power::lemma_pow_adds(5, 1, 1);
        vstd::arithmetic::power::lemma_pow_adds(4, 1, 1);
    } else {
        let j = (k - 3) as nat;
        lemma_pow_5_4_step(j);
        vstd::arithmetic::power::lemma_pow_adds(5, j, 3);
        vstd::arithmetic::power::lemma_pow_adds(4, j, 3);
        vstd::arithmetic::power::lemma_pow_adds(2, (j + 2) / 3, 1);
        vstd::arithmetic::power::lemma_pow_adds(5, 1, 1);
        vstd::arithmetic::power::lemma_pow_adds(5, 2, 1);
        vstd::arithmetic::power::lemma_pow_adds(4, 1, 1);
        vstd::arithmetic::power::lemma_pow_adds(4, 2, 1);
        assert((k + 2) / 3 == (j + 2) / 3 + 1);
        let a = pow(2, (j + 2) / 3);
        vstd::arithmetic::power::lemma_pow_positive(2, (j + 2) / 3);
        vstd::arithmetic::power::lemma_pow_positive(4, j);
        vstd::arithmetic::power::lemma_pow_positive(5, j);
        assert(pow(5, j) * 125 <= (a * 2) * (pow(4, j) * 64)) by (nonlinear_arith)
            requires
                pow(5, j) <= a * pow(4, j),
                a >= 0,
                pow(4, j) >= 0,
                pow(5, j) >= 0,
        ;
    }
}

proof fn lemma_pow_5_4_bound(k: nat)
    requires
        k <= 64,
    ensures
        pow(5, k) <= 0x40_0000 * pow(4, k),
{
    lemma_pow_5_4_step(k);
    vstd::arithmetic::power::lemma_pow_increases(2, (k + 2) / 3, 22);
    assert(pow(2, 22) == 0x40_0000) by {
        vstd::arithmetic::power2::lemma2_to64();
        vstd::arithmetic::power2::lemma_pow2(22);
    }
    vstd::arithmetic::power::lemma_pow_positive(4, k);
    assert(pow(5, k) <= 0x40_0000 * pow(4, k)) by (nonlinear_arith)
        requires
            pow(5, k) <= pow(2, (k + 2) / 3) * pow(4, k),
            pow(2, (k + 2) / 3) <= 0x40_0000,
            pow(4, k) > 0,
    ;
}

/// Difficulty bounds for an omitted-hop header given an older verified hop.
pub fn hop_difficulty_bounds(older_diff: u64, height_gap: u64, floor: u64) -> (r: (u64, u64))
    ensures
        r == spec_hop_bounds(older_diff, height_gap, floor),
        r.0 >= floor,
{
    let base: u128 = if older_diff >= floor {
        older_diff as u128
    } else {
        floor as u128
    };
    let g: u64 = height_gap.saturating_sub(1);
    let w: u64 = g / (DAA_WINDOW as u64) + 1;
    let windows: u64 = if w <= 64 {
        w
    } else {
        64
    };
    let mut lo: u128 = base;
    let mut hi: u128 = base;
    let mut k: u64 = 0;
    proof {
        vstd::arithmetic::power::lemma_pow0(5);
        vstd::arithmetic::power::lemma_pow0(4);
    }
    while k < windows
        invariant
            k <= windows <= 64,
            base < 0x1_0000_0000_0000_0000,
            windows as nat == hop_windows(height_gap),
            (lo as nat, hi as nat) == hop_iter(base as nat, floor as nat, k as nat),
            (hi as nat + 4) * pow(4, k as nat) <= (base as nat + 4) * pow(5, k as nat),
            lo <= base,
            floor as nat <= base,
        decreases windows - k,
    {
        proof {
            lemma_pow_5_4_bound(k as nat);
            vstd::arithmetic::power::lemma_pow_positive(4, k as nat);
            let p4 = pow(4, k as nat);
            let p5 = pow(5, k as nat);
            assert((hi as nat + 4) * p4 <= (base as nat + 4) * (0x40_0000 * p4)) by (nonlinear_arith)
                requires
                    (hi as nat + 4) * p4 <= (base as nat + 4) * p5,
                    p5 <= 0x40_0000 * p4,
            ;
            assert(hi as nat + 4 <= (base as nat + 4) * 0x40_0000) by (nonlinear_arith)
                requires
                    (hi as nat + 4) * p4 <= (base as nat + 4) * (0x40_0000 * p4),
                    p4 > 0,
            ;
        }
        let h5: u128 = hi * 5 / 4;
        let hi2: u128 = if h5 >= hi + 1 {
            h5
        } else {
            hi + 1
        };
        let l3: u128 = lo * 3 / 4;
        let lo2: u128 = if l3 >= floor as u128 {
            l3
        } else {
            floor as u128
        };
        proof {
            let p4 = pow(4, k as nat);
            let p5 = pow(5, k as nat);
            vstd::arithmetic::power::lemma_pow_positive(5, k as nat);
            vstd::arithmetic::power::lemma_pow_positive(4, k as nat);
            vstd::arithmetic::power::lemma_pow_adds(5, k as nat, 1);
            vstd::arithmetic::power::lemma_pow_adds(4, k as nat, 1);
            vstd::arithmetic::power::lemma_pow1(5);
            vstd::arithmetic::power::lemma_pow1(4);
            assert((hi2 as nat + 4) * 4 <= (hi as nat + 4) * 5) by (nonlinear_arith)
                requires
                    h5 == hi * 5 / 4,
                    hi2 == (if h5 >= hi + 1 { h5 as int } else { hi + 1 }),
            ;
            assert((hi2 as nat + 4) * (p4 * 4) <= (base as nat + 4) * (p5 * 5)) by (nonlinear_arith)
                requires
                    (hi2 as nat + 4) * 4 <= (hi as nat + 4) * 5,
                    (hi as nat + 4) * p4 <= (base as nat + 4) * p5,
                    p4 >= 0,
                    p5 >= 0,
            ;
            assert(lo2 <= base) by (nonlinear_arith)
                requires
                    lo <= base,
                    floor as nat <= base,
                    l3 == lo * 3 / 4,
                    lo2 == (if l3 >= floor as u128 { l3 as int } else { floor as int }),
            ;
        }
        hi = hi2;
        lo = lo2;
        k = k + 1;
    }
    let lo64: u64 = #[verifier::truncate] (lo as u64);
    let hi64: u64 = #[verifier::truncate] (hi as u64);
    proof {
        assert(lo64 == lo % 0x1_0000_0000_0000_0000) by (bit_vector)
            requires
                lo64 == lo as u64,
        ;
        assert(hi64 == hi % 0x1_0000_0000_0000_0000) by (bit_vector)
            requires
                hi64 == hi as u64,
        ;
    }
    (if lo64 >= floor {
        lo64
    } else {
        floor
    }, hi64)
}

/// Law: the fee floor is the larger of the absolute minimum and the
/// per-byte price: never below either, and equal to one of them.
pub proof fn law_min_relay_fee_is_max(nbytes: nat)
    ensures
        spec_min_relay_fee(nbytes) >= MIN_TX_FEE as nat,
        spec_min_relay_fee(nbytes) >= nbytes * (MIN_FEE_PER_BYTE as nat),
        spec_min_relay_fee(nbytes) == MIN_TX_FEE as nat || spec_min_relay_fee(nbytes) == nbytes * (MIN_FEE_PER_BYTE as nat),
{
}

/// The retarget window's duration, `DAA_WINDOW × TARGET_BLOCK_TIME_MS`.
pub open spec fn target_window_ms() -> nat {
    (DAA_WINDOW as nat) * (TARGET_BLOCK_TIME_MS as nat)
}

/// The measured span of a window, at least one millisecond.
pub open spec fn measured_span(newest_ts: u64, oldest_ts: u64) -> nat {
    if newest_ts > oldest_ts { (newest_ts - oldest_ts) as nat } else { 1 }
}

proof fn lemma_retarget_parts(base: u64, newest_ts: u64, oldest_ts: u64, floor: u64)
    requires
        base >= floor,
        base <= 0xCCCC_CCCC_CCCC_CCCC,
    ensures
        ({
            let b = base as nat;
            let raw = b * target_window_ms() / measured_span(newest_ts, oldest_ts);
            let up = if b * 5 / 4 >= b + 1 { b * 5 / 4 } else { b + 1 };
            let down = if b * 3 / 4 >= floor as nat { b * 3 / 4 } else { floor as nat };
            &&& down <= b < up < 0x1_0000_0000_0000_0000
            &&& spec_retarget(base, newest_ts, oldest_ts, floor) as nat == clamp_nat(raw, down, up)
        }),
{
    let b = base as nat;
    assert(b * 5 / 4 < 0x1_0000_0000_0000_0000) by (nonlinear_arith)
        requires
            b <= 0xCCCC_CCCC_CCCC_CCCC,
    ;
    assert(b * 3 / 4 <= b) by (nonlinear_arith);
    let span: nat = if newest_ts > oldest_ts { (newest_ts - oldest_ts) as nat } else { 0 };
    assert((if span == 0 { 1 } else { span }) == measured_span(newest_ts, oldest_ts));
}

/// Law: the retarget raises the difficulty when the window was mined
/// faster than its target duration and lowers it when slower. For a base at
/// or above the floor, a span shorter than `DAA_WINDOW × TARGET_BLOCK_TIME_MS`
/// never gives less than the base, a longer one never more; the result
/// stays within `[max(3/4·base, floor), max(5/4·base, base + 1)]` and is the
/// ratio `base × target / span` itself wherever that lies inside. (Bases
/// above `0xCCCC_CCCC_CCCC_CCCC` are left out: there the upper clamp no
/// longer fits in `u64`.)
pub proof fn law_retarget_follows_block_rate(base: u64, newest_ts: u64, oldest_ts: u64, floor: u64)
    requires
        base >= floor,
        base <= 0xCCCC_CCCC_CCCC_CCCC,
    ensures
        measured_span(newest_ts, oldest_ts) < target_window_ms() ==> spec_retarget(base, newest_ts, oldest_ts, floor) >= base,
        measured_span(newest_ts, oldest_ts) > target_window_ms() ==> spec_retarget(base, newest_ts, oldest_ts, floor) <= base,
        spec_retarget(base, newest_ts, oldest_ts, floor) as nat <= (if (base as nat) * 5 / 4 >= base as nat + 1 {
            (base as nat) * 5 / 4
        } else {
            base as nat + 1
        }),
        spec_retarget(base, newest_ts, oldest_ts, floor) as nat >= (base as nat) * 3 / 4,
        spec_retarget(base, newest_ts, oldest_ts, floor) >= floor,
        ({
            let ratio = (base as nat) * target_window_ms() / measured_span(newest_ts, oldest_ts);
            (base as nat) * 3 / 4 <= ratio && floor as nat <= ratio && ratio <= (base as nat) * 5 / 4
                ==> spec_retarget(base, newest_ts, oldest_ts, floor) as nat == ratio
        }),
{
    lemma_retarget_parts(base, newest_ts, oldest_ts, floor);
    let b = base as nat;
    let a = measured_span(newest_ts, oldest_ts);
    let tw = target_window_ms();
    assert(tw == 66100);
    assert(b * tw / tw == b) by {
        vstd::arithmetic::div_mod::lemma_div_multiples_vanish(b as int, tw as int);
        vstd::arithmetic::mul::lemma_mul_is_commutative(b as int, tw as int);
    }
    if a < tw {
        vstd::arithmetic::div_mod::lemma_div_is_ordered_by_denominator((b * tw) as int, a as int, tw as int);
    }
    if a > tw {
        vstd::arithmetic::div_mod::lemma_div_is_ordered_by_denominator((b * tw) as int, tw as int, a as int);
    }
}

/// Law: a window mined faster never gets a lower difficulty than one mined
/// slower from the same base: the retarget is antitone in the window's span.
pub proof fn law_retarget_antitone_in_span(base: u64, floor: u64, newest_a: u64, oldest_a: u64, newest_b: u64, oldest_b: u64)
    requires
        base >= floor,
        base <= 0xCCCC_CCCC_CCCC_CCCC,
        measured_span(newest_a, oldest_a) <= measured_span(newest_b, oldest_b),
    ensures
        spec_retarget(base, newest_a, oldest_a, floor) >= spec_retarget(base, newest_b, oldest_b, floor),
{
    lemma_retarget_parts(base, newest_a, oldest_a, floor);
    lemma_retarget_parts(base, newest_b, oldest_b, floor);
    let b = base as nat;
    vstd::arithmetic::div_mod::lemma_div_is_ordered_by_denominator(
        (b * target_window_ms()) as int,
        measured_span(newest_a, oldest_a) as int,
        measured_span(newest_b, oldest_b) as int,
    );
}

/// The larger of the older hop's difficulty and the floor.
pub open spec fn hop_base(older_diff: u64, floor: u64) -> nat {
    if older_diff >= floor { older_diff as nat } else { floor as nat }
}

/// One quarter down, never below `floor`.
pub open spec fn quarter_down(x: nat, floor: nat) -> nat {
    if x * 3 / 4 >= floor { x * 3 / 4 } else { floor }
}

/// One quarter up, at least one more.
pub open spec fn quarter_up(x: nat) -> nat {
    if x * 5 / 4 >= x + 1 { x * 5 / 4 } else { x + 1 }
}

proof fn lemma_hop_iter_range(base: nat, floor: nat, n: nat)
    requires
        floor <= base,
    ensures
        floor <= hop_iter(base, floor, n).0 <= base,
        hop_iter(base, floor, n).1 >= base,
    decreases n,
{
    if n > 0 {
        lemma_hop_iter_range(base, floor, (n - 1) as nat);
        let p = hop_iter(base, floor, (n - 1) as nat);
        assert(p.0 * 3 / 4 <= p.0) by (nonlinear_arith);
    }
}

/// Law: a skipped stretch within one DAA window allows exactly one ±25 %
/// step from the older hop: `lo = max(3/4·base, floor)` and
/// `hi = max(5/4·base, base + 1)`, with `base = max(older_diff, floor)`.
/// (Bases above `0xCCCC_CCCC_CCCC_CCCC`, where `hi` no longer fits in `u64`,
/// are left out.)
pub proof fn law_hop_bounds_one_window(older_diff: u64, height_gap: u64, floor: u64)
    requires
        height_gap <= DAA_WINDOW,
        hop_base(older_diff, floor) <= 0xCCCC_CCCC_CCCC_CCCC,
    ensures
        spec_hop_bounds(older_diff, height_gap, floor).0 as nat == quarter_down(hop_base(older_diff, floor), floor as nat),
        spec_hop_bounds(older_diff, height_gap, floor).1 as nat == quarter_up(hop_base(older_diff, floor)),
{
    let b = hop_base(older_diff, floor);
    assert(hop_windows(height_gap) == 1);
    assert(hop_iter(b, floor as nat, 0) == (b, b));
    assert(hop_iter(b, floor as nat, 1) == hop_step(hop_iter(b, floor as nat, 0).0, hop_iter(b, floor as nat, 0).1, floor as nat));
    assert(b * 5 / 4 < 0x1_0000_0000_0000_0000) by (nonlinear_arith)
        requires
            b <= 0xCCCC_CCCC_CCCC_CCCC,
    ;
    assert(b * 3 / 4 <= b) by (nonlinear_arith);
}

/// Law: a skipped stretch longer than one DAA window but within two allows
/// exactly two ±25 % steps from the older hop. (Bases of `2^63` and more
/// are left out: there `hi` no longer fits in `u64`.)
pub proof fn law_hop_bounds_two_windows(older_diff: u64, height_gap: u64, floor: u64)
    requires
        DAA_WINDOW < height_gap <= 2 * DAA_WINDOW,
        hop_base(older_diff, floor) < 0x8000_0000_0000_0000,
    ensures
        spec_hop_bounds(older_diff, height_gap, floor).0 as nat
            == quarter_down(quarter_down(hop_base(older_diff, floor), floor as nat), floor as nat),
        spec_hop_bounds(older_diff, height_gap, floor).1 as nat == quarter_up(quarter_up(hop_base(older_diff, floor))),
{
    let b = hop_base(older_diff, floor);
    let f = floor as nat;
    assert(hop_windows(height_gap) == 2);
    assert(hop_iter(b, f, 0) == (b, b));
    assert(hop_iter(b, f, 1) == hop_step(hop_iter(b, f, 0).0, hop_iter(b, f, 0).1, f));
    assert(hop_iter(b, f, 2) == hop_step(hop_iter(b, f, 1).0, hop_iter(b, f, 1).1, f));
    let h1 = quarter_up(b);
    assert(h1 <= b * 5 / 4 + 1) by (nonlinear_arith)
        requires
            h1 == (if b * 5 / 4 >= b + 1 { b * 5 / 4 } else { b + 1 }),
    ;
    assert(quarter_up(h1) < 0x1_0000_0000_0000_0000) by (nonlinear_arith)
        requires
            b < 0x8000_0000_0000_0000,
            h1 <= b * 5 / 4 + 1,
            quarter_up(h1) == (if h1 * 5 / 4 >= h1 + 1 { h1 * 5 / 4 } else { h1 + 1 }),
    ;
    lemma_hop_iter_range(b, f, 2);
}

/// Law: each further DAA window of skipped height takes the lower bound one
/// more quarter down (never below the floor), up to the cap of 64 windows.
pub proof fn law_hop_lower_bound_per_window(older_diff: u64, height_gap: u64, floor: u64)
    requires
        1 <= height_gap,
        height_gap + DAA_WINDOW <= u64::MAX,
        (height_gap - 1) / (DAA_WINDOW as int) + 1 < 64,
    ensures
        spec_hop_bounds(older_diff, (height_gap + DAA_WINDOW) as u64, floor).0 as nat
            == quarter_down(spec_hop_bounds(older_diff, height_gap, floor).0 as nat, floor as nat),
{
    let b = hop_base(older_diff, floor);
    let f = floor as nat;
    let n = hop_windows(height_gap);
    let g2 = (height_gap + DAA_WINDOW) as u64;
    assert(((g2 - 1) as nat) / (DAA_WINDOW as nat) == ((height_gap - 1) as nat) / (DAA_WINDOW as nat) + 1) by {
        vstd::arithmetic::div_mod::lemma_div_plus_one((height_gap - 1) as int, DAA_WINDOW as int);
    }
    assert(hop_windows(g2) == n + 1);
    assert(hop_iter(b, f, n + 1) == hop_step(hop_iter(b, f, n).0, hop_iter(b, f, n).1, f));
    lemma_hop_iter_range(b, f, n);
    lemma_hop_iter_range(b, f, n + 1);
}

/// Law: beyond 64 DAA windows of skipped height the bounds no longer widen.
pub proof fn law_hop_bounds_capped(older_diff: u64, height_gap: u64, floor: u64)
    requires
        height_gap > 64 * DAA_WINDOW,
    ensures
        spec_hop_bounds(older_diff, height_gap, floor) == spec_hop_bounds(older_diff, (64 * DAA_WINDOW) as u64, floor),
{
    assert(((height_gap - 1) as nat) / (DAA_WINDOW as nat) >= 64) by {
        vstd::arithmetic::div_mod::lemma_div_is_ordered((64 * DAA_WINDOW) as int, (height_gap - 1) as int, DAA_WINDOW as int);
        vstd::arithmetic::div_mod::lemma_div_multiples_vanish(64, DAA_WINDOW as int);
    }
    assert(hop_windows(height_gap) == 64);
    assert(hop_windows((64 * DAA_WINDOW) as u64) == 64);
}

} // verus!
