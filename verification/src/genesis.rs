//! Canonical chain parameters and the monetary schedule.
//!
//! Constants here are compile-time consensus: subsidy halvings, the hard
//! supply cap, and the two proof-of-work eras (bootstrap floor, then the hard
//! floor once one million coins have been minted).

use vstd::prelude::*;
use vstd::bits::lemma_u128_shr_is_div;
use vstd::arithmetic::power2::{pow2, lemma_pow2_pos, lemma_pow2_adds, lemma2_to64};
use vstd::arithmetic::div_mod::{lemma_div_by_multiple_is_strongly_ordered, lemma_div_is_ordered_by_denominator, lemma_div_plus_one};

verus! {

/// Domain tag absorbed into genesis / settlement identity (`hassan-genesis-v31`).
pub open spec fn spec_genesis_domain() -> Seq<u8> {
    seq![104u8, 97u8, 115u8, 115u8, 97u8, 110u8, 45u8, 103u8, 101u8, 110u8, 101u8, 115u8, 105u8, 115u8, 45u8, 118u8, 51u8, 49u8]
}

/// The genesis domain tag as bytes.
pub fn genesis_domain() -> (r: Vec<u8>)
    ensures
        r@ == spec_genesis_domain(),
{
    vec![104u8, 97u8, 115u8, 115u8, 97u8, 110u8, 45u8, 103u8, 101u8, 110u8, 101u8, 115u8, 105u8, 115u8, 45u8, 118u8, 51u8, 49u8]
}
/// Chain founder (metadata; not a premine allocation).
pub const FOUNDER: &'static str = "MMK";
/// Chain slogan.
pub const SLOGAN: &'static str = "Knowing";
/// On-disk state format version.
pub const STATE_FORMAT_VERSION: u32 = 31;
/// Peer-to-peer account-balance transfers are consensus-disabled.
pub const ACCOUNT_PEER_TRANSFERS: bool = false;

/// Target block interval (ms).
pub const BLOCK_TIME_MS: u64 = 100;
pub const TARGET_BLOCK_TIME_MS: u64 = 100;

pub const MAX_BLOCK_SIZE: usize = 22528;
pub const MAX_BLOCK_BYTES: usize = 262144;
pub const MAX_BLOCK_PARENTS: usize = 10;
pub const MAX_MERGESET_SIZE: usize = 512;
/// Blue-work weighted difficulty-adjustment window (consensus value).
pub const DAA_WINDOW_CONSENSUS: usize = 661;
/// Difficulty-adjustment window used by this build.
pub const DAA_WINDOW: usize = 661;
pub const MAX_MEMPOOL_SIZE: usize = 10000;
/// Byte budget for mempool payloads (DoS bound).
pub const MAX_MEMPOOL_BYTES: usize = 33554432;
/// Max contiguous account-nonce package depth from the account tip.
pub const MAX_MEMPOOL_PACKAGE_NONCES: usize = 25;
/// Max UTXO mempool transactions in one ancestor package.
pub const MAX_UTXO_PACKAGE_COUNT: usize = 25;
/// Max serialized bytes across one UTXO ancestor package.
pub const MAX_UTXO_PACKAGE_BYTES: usize = 524288;
/// Absolute minimum relay / inclusion fee (base units).
pub const MIN_TX_FEE: u128 = 1000;
/// Density floor: the fee must also cover the wire bytes.
pub const MIN_FEE_PER_BYTE: u128 = 1;
/// Account-transfer amounts below this are dust.
pub const DUST_THRESHOLD: u128 = 546;

/// Target wall-clock economic finality window (hours).
pub const FINALITY_TARGET_HOURS: u64 = 12;
/// `FINALITY_TARGET_HOURS × 3_600_000 / BLOCK_TIME_MS` blues.
pub const FINALITY_DEPTH_CONSENSUS: u64 = 432000;
/// Finality depth used by this build.
pub const FINALITY_DEPTH: u64 = 432000;
pub const PRUNING_DEPTH: u64 = 864000;
pub const PRUNING_DEPTH_CONSENSUS: u64 = 864000;
/// Fully DAA-checked recent headers in multilevel pruning proofs (`2 × DAA_WINDOW`).
pub const PRUNING_PROOF_RECENT_WINDOW: usize = 1322;

/// 2026-07-26T00:00:00Z — fixed so every node shares the same genesis hash.
pub const GENESIS_TIMESTAMP_MS: u64 = 1785024000000;
pub const MAX_FUTURE_DRIFT_MS: u64 = 7200000;
/// Numeric chain id for transaction replay protection.
pub const CHAIN_ID: u64 = 16858749123010493047;

/// One whole coin in base units (8 decimals).
pub const COIN: u128 = 100000000;
/// Hard cap in whole coins.
pub const MAX_SUPPLY_COINS: u128 = 25000000;
pub const MAX_SUPPLY: u128 = 2500000000000000;
pub const TOTAL_SUPPLY: u128 = 2500000000000000;
/// Initial subsidy in whole coins.
pub const BLOCK_REWARD_COINS: u128 = 50;
pub const BLOCK_REWARD: u128 = 5000000000;
/// Blue-score levels between halvings.
pub const HALVING_INTERVAL: u64 = 250000;

/// Minted-supply threshold (base units) ending the bootstrap PoW era.
pub const BOOTSTRAP_ERA_END: u128 = 100000000000000;
/// Difficulty floor after the bootstrap era (`2^24`).
pub const HARD_ERA_MIN_DIFFICULTY: u64 = 16777216;
/// Bootstrap-era difficulty floor.
pub const BOOTSTRAP_MIN_DIFFICULTY: u64 = 7000;
pub const LAB_EASY_DIFFICULTY: u64 = 7000;
/// Consensus PoW floor for non-genesis blocks (= bootstrap floor).
pub const MIN_DIFFICULTY: u64 = 7000;
/// Genesis header difficulty claim.
pub const GENESIS_DIFFICULTY: u64 = 1;
/// Name of the environment switch that keeps the bootstrap floor past the era end.
pub const BOOTSTRAP_EASY_ENV: &'static str = "HASSAN_BOOTSTRAP_EASY";

/// The subsidy at `blue_score`: the initial reward halved once per completed
/// halving interval, and nothing once 128 halvings have passed.
pub open spec fn spec_block_subsidy(blue_score: nat) -> nat {
    let halvings = blue_score / (HALVING_INTERVAL as nat);
    if halvings >= 128 {
        0
    } else {
        (BLOCK_REWARD as nat) / pow2(halvings)
    }
}

/// Scheduled issuance over blue scores `[0, up_to)`, before the cap.
pub open spec fn scheduled_issuance(up_to: nat) -> nat
    decreases up_to,
{
    if up_to == 0 {
        0
    } else {
        scheduled_issuance((up_to - 1) as nat) + spec_block_subsidy((up_to - 1) as nat)
    }
}

/// Issuance over blue scores `[0, up_to)` clamped by the hard cap.
pub open spec fn spec_cumulative_issuance(up_to: nat) -> nat {
    let s = scheduled_issuance(up_to);
    if s <= MAX_SUPPLY as nat {
        s
    } else {
        MAX_SUPPLY as nat
    }
}

/// The proof-of-work floor for the default consensus schedule.
pub open spec fn spec_era_min_difficulty(lab_easy: bool, minted_before: nat) -> u64 {
    if lab_easy || minted_before < BOOTSTRAP_ERA_END as nat {
        BOOTSTRAP_MIN_DIFFICULTY
    } else {
        HARD_ERA_MIN_DIFFICULTY
    }
}

/// Block subsidy at `blue_score`: `BLOCK_REWARD` halved each `HALVING_INTERVAL`.
pub fn block_subsidy(blue_score: u64) -> (r: u128)
    ensures
        r as nat == spec_block_subsidy(blue_score as nat),
{
    let halvings = blue_score / HALVING_INTERVAL;
    if halvings >= 128 {
        return 0;
    }
    let h: u128 = halvings as u128;
    proof {
        lemma_u128_shr_is_div(BLOCK_REWARD, h);
    }
    BLOCK_REWARD >> h
}

/// `pow2` is monotone.
pub proof fn lemma_pow2_le(a: nat, b: nat)
    requires
        a <= b,
    ensures
        pow2(a) <= pow2(b),
{
    if a < b {
        vstd::arithmetic::power2::lemma_pow2_strictly_increases(a, b);
    }
}

/// Within one halving era the subsidy is constant.
proof fn lemma_subsidy_in_era(era: nat, t: nat)
    requires
        t < HALVING_INTERVAL as nat,
    ensures
        spec_block_subsidy(era * (HALVING_INTERVAL as nat) + t) == if era >= 128 {
            0
        } else {
            (BLOCK_REWARD as nat) / pow2(era)
        },
{
    let h = HALVING_INTERVAL as nat;
    assert((era * h + t) / h == era) by (nonlinear_arith)
        requires
            t < h,
            h > 0,
    ;
}

/// Scheduled issuance grows linearly inside one era.
proof fn lemma_scheduled_in_era(era: nat, t: nat)
    requires
        t <= HALVING_INTERVAL as nat,
    ensures
        scheduled_issuance(era * (HALVING_INTERVAL as nat) + t) == scheduled_issuance(
            era * (HALVING_INTERVAL as nat),
        ) + t * (if era >= 128 {
            0
        } else {
            (BLOCK_REWARD as nat) / pow2(era)
        }),
    decreases t,
{
    let h = HALVING_INTERVAL as nat;
    let r: nat = if era >= 128 {
        0
    } else {
        (BLOCK_REWARD as nat) / pow2(era)
    };
    if t == 0 {
        assert(t * r == 0);
    } else {
        let m: nat = era * h + (t - 1) as nat;
        lemma_scheduled_in_era(era, (t - 1) as nat);
        lemma_subsidy_in_era(era, (t - 1) as nat);
        assert(scheduled_issuance(m) == scheduled_issuance(era * h) + ((t - 1) as nat) * r);
        assert(spec_block_subsidy(m) == r);
        assert(scheduled_issuance(m + 1) == scheduled_issuance(m) + spec_block_subsidy(m));
        assert(((t - 1) as nat) * r + r == t * r) by (nonlinear_arith)
            requires
                t >= 1,
        ;
        assert(m + 1 == era * h + t);
    }
}

/// Scheduled issuance of the first `e` whole halving eras.
pub open spec fn eras_total(e: nat) -> nat
    decreases e,
{
    if e == 0 {
        0
    } else {
        eras_total((e - 1) as nat) + (HALVING_INTERVAL as nat) * ((BLOCK_REWARD as nat) / pow2((e - 1) as nat))
    }
}

proof fn lemma_eras_total(e: nat)
    requires
        e <= 128,
    ensures
        scheduled_issuance(e * (HALVING_INTERVAL as nat)) == eras_total(e),
    decreases e,
{
    let h = HALVING_INTERVAL as nat;
    if e > 0 {
        let p = (e - 1) as nat;
        lemma_eras_total(p);
        lemma_scheduled_in_era(p, h);
        assert(p * h + h == e * h) by (nonlinear_arith)
            requires
                p + 1 == e,
        ;
    }
}

/// Law: at 50,000,000 blue levels (200 halving eras) the issuance has
/// reached within one coin of the hard cap, without passing it.
pub proof fn law_issuance_near_cap()
    ensures
        MAX_SUPPLY - COIN < spec_cumulative_issuance(50000000),
        spec_cumulative_issuance(50000000) <= MAX_SUPPLY,
{
    let h = HALVING_INTERVAL as nat;
    lemma_eras_total(33);
    assert(eras_total(33) == 2499999997250000) by {
        vstd::arithmetic::power2::lemma2_to64();
        assert(eras_total(0) == 0);
        assert(pow2(0) == 1);
        assert((BLOCK_REWARD as nat) / pow2(0) == 5000000000);
        assert(eras_total(1) == 1250000000000000);
        assert(pow2(1) == 2);
        assert((BLOCK_REWARD as nat) / pow2(1) == 2500000000);
        assert(eras_total(2) == 1875000000000000);
        assert(pow2(2) == 4);
        assert((BLOCK_REWARD as nat) / pow2(2) == 1250000000);
        assert(eras_total(3) == 2187500000000000);
        assert(pow2(3) == 8);
        assert((BLOCK_REWARD as nat) / pow2(3) == 625000000);
        assert(eras_total(4) == 2343750000000000);
        assert(pow2(4) == 16);
        assert((BLOCK_REWARD as nat) / pow2(4) == 312500000);
        assert(eras_total(5) == 2421875000000000);
        assert(pow2(5) == 32);
        assert((BLOCK_REWARD as nat) / pow2(5) == 156250000);
        assert(eras_total(6) == 2460937500000000);
        assert(pow2(6) == 64);
        assert((BLOCK_REWARD as nat) / pow2(6) == 78125000);
        assert(eras_total(7) == 2480468750000000);
        assert(pow2(7) == 128);
        assert((BLOCK_REWARD as nat) / pow2(7) == 39062500);
        assert(eras_total(8) == 2490234375000000);
        assert(pow2(8) == 256);
        assert((BLOCK_REWARD as nat) / pow2(8) == 19531250);
        assert(eras_total(9) == 2495117187500000);
        assert(pow2(9) == 512);
        assert((BLOCK_REWARD as nat) / pow2(9) == 9765625);
        assert(eras_total(10) == 2497558593750000);
        assert(pow2(10) == 1024);
        assert((BLOCK_REWARD as nat) / pow2(10) == 4882812);
        assert(eras_total(11) == 2498779296750000);
        assert(pow2(11) == 2048);
        assert((BLOCK_REWARD as nat) / pow2(11) == 2441406);
        assert(eras_total(12) == 2499389648250000);
        assert(pow2(12) == 4096);
        assert((BLOCK_REWARD as nat) / pow2(12) == 1220703);
        assert(eras_total(13) == 2499694824000000);
        assert(pow2(13) == 8192);
        assert((BLOCK_REWARD as nat) / pow2(13) == 610351);
        assert(eras_total(14) == 2499847411750000);
        assert(pow2(14) == 16384);
        assert((BLOCK_REWARD as nat) / pow2(14) == 305175);
        assert(eras_total(15) == 2499923705500000);
        assert(pow2(15) == 32768);
        assert((BLOCK_REWARD as nat) / pow2(15) == 152587);
        assert(eras_total(16) == 2499961852250000);
        assert(pow2(16) == 65536);
        assert((BLOCK_REWARD as nat) / pow2(16) == 76293);
        assert(eras_total(17) == 2499980925500000);
        assert(pow2(17) == 131072);
        assert((BLOCK_REWARD as nat) / pow2(17) == 38146);
        assert(eras_total(18) == 2499990462000000);
        assert(pow2(18) == 262144);
        assert((BLOCK_REWARD as nat) / pow2(18) == 19073);
        assert(eras_total(19) == 2499995230250000);
        assert(pow2(19) == 524288);
        assert((BLOCK_REWARD as nat) / pow2(19) == 9536);
        assert(eras_total(20) == 2499997614250000);
        assert(pow2(20) == 1048576);
        assert((BLOCK_REWARD as nat) / pow2(20) == 4768);
        assert(eras_total(21) == 2499998806250000);
        assert(pow2(21) == 2097152);
        assert((BLOCK_REWARD as nat) / pow2(21) == 2384);
        assert(eras_total(22) == 2499999402250000);
        assert(pow2(22) == 4194304);
        assert((BLOCK_REWARD as nat) / pow2(22) == 1192);
        assert(eras_total(23) == 2499999700250000);
        assert(pow2(23) == 8388608);
        assert((BLOCK_REWARD as nat) / pow2(23) == 596);
        assert(eras_total(24) == 2499999849250000);
        assert(pow2(24) == 16777216);
        assert((BLOCK_REWARD as nat) / pow2(24) == 298);
        assert(eras_total(25) == 2499999923750000);
        assert(pow2(25) == 33554432);
        assert((BLOCK_REWARD as nat) / pow2(25) == 149);
        assert(eras_total(26) == 2499999961000000);
        assert(pow2(26) == 67108864);
        assert((BLOCK_REWARD as nat) / pow2(26) == 74);
        assert(eras_total(27) == 2499999979500000);
        assert(pow2(27) == 134217728);
        assert((BLOCK_REWARD as nat) / pow2(27) == 37);
        assert(eras_total(28) == 2499999988750000);
        assert(pow2(28) == 268435456);
        assert((BLOCK_REWARD as nat) / pow2(28) == 18);
        assert(eras_total(29) == 2499999993250000);
        assert(pow2(29) == 536870912);
        assert((BLOCK_REWARD as nat) / pow2(29) == 9);
        assert(eras_total(30) == 2499999995500000);
        assert(pow2(30) == 1073741824);
        assert((BLOCK_REWARD as nat) / pow2(30) == 4);
        assert(eras_total(31) == 2499999996500000);
        assert(pow2(31) == 2147483648);
        assert((BLOCK_REWARD as nat) / pow2(31) == 2);
        assert(eras_total(32) == 2499999997000000);
        assert(pow2(32) == 4294967296);
        assert((BLOCK_REWARD as nat) / pow2(32) == 1);
        assert(eras_total(33) == 2499999997250000);
    }
    lemma_reward_zero_late(33);
    assert(50000000 >= 33 * h);
    lemma_tail_zero(50000000, 33);
}

/// The reward halves from one era to the next.
proof fn lemma_reward_halves(era: nat)
    ensures
        (BLOCK_REWARD as nat) / pow2(era + 1) == ((BLOCK_REWARD as nat) / pow2(era)) / 2,
{
    lemma_pow2_pos(era);
    lemma_pow2_adds(era, 1);
    vstd::arithmetic::power2::lemma2_to64();
    vstd::arithmetic::div_mod::lemma_div_denominator(BLOCK_REWARD as int, pow2(era) as int, 2);
}

/// From the 33rd halving on, the reward is zero.
proof fn lemma_reward_zero_late(era: nat)
    requires
        era >= 33,
    ensures
        (BLOCK_REWARD as nat) / pow2(era) == 0,
{
    vstd::arithmetic::power2::lemma2_to64_rest();
    lemma_pow2_le(33, era);
    vstd::arithmetic::div_mod::lemma_basic_div(BLOCK_REWARD as int, pow2(era) as int);
}

/// Past the point where the reward reached zero, scheduled issuance is flat.
proof fn lemma_tail_zero(n: nat, era: nat)
    requires
        (BLOCK_REWARD as nat) / pow2(era) == 0,
        n >= era * (HALVING_INTERVAL as nat),
    ensures
        scheduled_issuance(n) == scheduled_issuance(era * (HALVING_INTERVAL as nat)),
    decreases n,
{
    let h = HALVING_INTERVAL as nat;
    if n > era * h {
        lemma_tail_zero((n - 1) as nat, era);
        let m = (n - 1) as nat;
        assert(m / h >= era) by {
            vstd::arithmetic::div_mod::lemma_div_is_ordered((era * h) as int, m as int, h as int);
            vstd::arithmetic::div_mod::lemma_div_by_multiple(era as int, h as int);
        }
        if m / h < 128 {
            lemma_pow2_pos(era);
            lemma_pow2_le(era, m / h);
            vstd::arithmetic::div_mod::lemma_div_is_ordered_by_denominator(
                BLOCK_REWARD as int,
                pow2(era) as int,
                pow2(m / h) as int,
            );
        }
        assert(spec_block_subsidy(m) == 0);
    }
}

/// Closed-form cumulative scheduled issuance for blue scores `[0, up_to)`,
/// clamped at `MAX_SUPPLY`.
pub fn cumulative_issuance(up_to_blue: u64) -> (r: u128)
    ensures
        r as nat == spec_cumulative_issuance(up_to_blue as nat),
{
    let mut total: u128 = 0;
    let mut remaining: u64 = up_to_blue;
    let mut reward: u128 = BLOCK_REWARD;
    let ghost mut era: nat = 0;
    proof {
        lemma2_to64();
    }
    while remaining > 0 && reward > 0
        invariant
            remaining <= up_to_blue,
            remaining > 0 ==> up_to_blue - remaining == era * (HALVING_INTERVAL as nat),
            reward as nat == (BLOCK_REWARD as nat) / pow2(era),
            era <= 33,
            total as nat == scheduled_issuance((up_to_blue - remaining) as nat),
            total as nat <= era * 1250000000000000,
        decreases remaining,
    {
        let take: u64 = if remaining < HALVING_INTERVAL {
            remaining
        } else {
            HALVING_INTERVAL
        };
        proof {
            lemma_pow2_pos(era);
            if era >= 33 {
                lemma_reward_zero_late(era);
            }
            lemma2_to64();
            assert(pow2(0) == 1);
            lemma_pow2_le(0, era);
            vstd::arithmetic::div_mod::lemma_div_is_ordered_by_denominator(
                BLOCK_REWARD as int,
                1,
                pow2(era) as int,
            );
            lemma_scheduled_in_era(era, take as nat);
            assert(take * reward == reward * take) by (nonlinear_arith);
            assert((up_to_blue - (remaining - take)) as nat == era * (HALVING_INTERVAL as nat) + take);
            assert(reward * take <= 1250000000000000) by (nonlinear_arith)
                requires
                    reward <= 5000000000,
                    take <= 250000,
            ;
            assert(era * 1250000000000000 + 1250000000000000 == (era + 1) * 1250000000000000)
                by (nonlinear_arith);
        }
        total = total + reward * (take as u128);
        remaining = remaining - take;
        let next: u128 = reward >> 1u128;
        proof {
            lemma_u128_shr_is_div(reward, 1u128);
            lemma_reward_halves(era);
            assert(era * (HALVING_INTERVAL as nat) + (HALVING_INTERVAL as nat) == (era + 1) * (
            HALVING_INTERVAL as nat)) by (nonlinear_arith);
            era = era + 1;
        }
        reward = next;
    }
    proof {
        if remaining > 0 {
            lemma_tail_zero(up_to_blue as nat, era);
        }
    }
    if total < MAX_SUPPLY {
        total
    } else {
        MAX_SUPPLY
    }
}

/// Supply-era proof-of-work floor with an explicit lab override flag:
/// the bootstrap floor while fewer than `BOOTSTRAP_ERA_END` base units are
/// minted (or when the override is on), the hard floor afterwards.
pub fn era_min_difficulty_with_override(lab_easy: bool, minted_before: u128, _timestamp_ms: u64) -> (r: u64)
    ensures
        r == spec_era_min_difficulty(lab_easy, minted_before as nat),
{
    if lab_easy || minted_before < BOOTSTRAP_ERA_END {
        BOOTSTRAP_MIN_DIFFICULTY
    } else {
        HARD_ERA_MIN_DIFFICULTY
    }
}

/// Supply-era proof-of-work floor under the default consensus schedule
/// (no lab override): 7000 before one million coins are minted, `2^24` after.
pub fn era_min_difficulty(minted_before: u128, timestamp_ms: u64) -> (r: u64)
    ensures
        r == spec_era_min_difficulty(false, minted_before as nat),
{
    era_min_difficulty_with_override(false, minted_before, timestamp_ms)
}

/// Effective non-genesis PoW floor at genesis supply (bootstrap era).
pub fn effective_min_difficulty() -> (r: u64)
    ensures
        r == BOOTSTRAP_MIN_DIFFICULTY,
{
    era_min_difficulty(0, GENESIS_TIMESTAMP_MS)
}

/// Law: issuance never exceeds the hard cap.
pub proof fn law_issuance_capped(up_to: nat)
    ensures
        spec_cumulative_issuance(up_to) <= MAX_SUPPLY as nat,
{
}

/// Scheduled issuance is nondecreasing.
proof fn lemma_scheduled_monotone(a: nat, b: nat)
    requires
        a <= b,
    ensures
        scheduled_issuance(a) <= scheduled_issuance(b),
    decreases b,
{
    if a < b {
        lemma_scheduled_monotone(a, (b - 1) as nat);
    }
}

/// Law: cumulative issuance is nondecreasing in the blue score.
pub proof fn law_issuance_monotone(a: nat, b: nat)
    requires
        a <= b,
    ensures
        spec_cumulative_issuance(a) <= spec_cumulative_issuance(b),
{
    lemma_scheduled_monotone(a, b);
}

/// Law: each blue-score level adds exactly its subsidy, clamped at the cap.
pub proof fn law_issuance_step(n: nat)
    ensures
        spec_cumulative_issuance(n + 1) == if spec_cumulative_issuance(n) + spec_block_subsidy(n)
            <= MAX_SUPPLY as nat {
            spec_cumulative_issuance(n) + spec_block_subsidy(n)
        } else {
            MAX_SUPPLY as nat
        },
{
    assert(scheduled_issuance(n + 1) == scheduled_issuance(n) + spec_block_subsidy(n));
}

/// Law: the subsidy halves (rounding down) every `HALVING_INTERVAL` blue levels.
pub proof fn law_subsidy_halves(blue_score: nat)
    ensures
        spec_block_subsidy(blue_score + HALVING_INTERVAL as nat) == spec_block_subsidy(blue_score) / 2,
{
    let h = HALVING_INTERVAL as nat;
    let e = blue_score / h;
    assert((blue_score + h) / h == e + 1) by {
        vstd::arithmetic::div_mod::lemma_div_plus_one(blue_score as int, h as int);
    }
    if e + 1 < 128 {
        lemma_reward_halves(e);
    } else if e < 128 {
        // e == 127: the reward is already zero, so halving it stays zero.
        lemma_reward_zero_late(e);
    }
}

/// Law: after 33 halvings the subsidy is zero for good.
pub proof fn law_subsidy_eventually_zero(blue_score: nat)
    requires
        blue_score >= 33 * (HALVING_INTERVAL as nat),
    ensures
        spec_block_subsidy(blue_score) == 0,
{
    let h = HALVING_INTERVAL as nat;
    assert(blue_score / h >= 33) by {
        vstd::arithmetic::div_mod::lemma_div_is_ordered((33 * h) as int, blue_score as int, h as int);
        vstd::arithmetic::div_mod::lemma_div_by_multiple(33, h as int);
    }
    if blue_score / h < 128 {
        lemma_reward_zero_late(blue_score / h);
    }
}

/// Law: the proof-of-work floor never decreases as more supply is minted.
pub proof fn law_era_floor_monotone(lab_easy: bool, a: nat, b: nat)
    requires
        a <= b,
    ensures
        spec_era_min_difficulty(lab_easy, a) <= spec_era_min_difficulty(lab_easy, b),
{
}

} // verus!
