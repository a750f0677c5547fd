use hassan::chain::ChainState;
use hassan::fee::{FeeRateHistory, FEE_TARGET_HIGH_BLUES, FEE_TARGET_LOW_BLUES, FEE_TARGET_MEDIUM_BLUES};
use hassan::genesis::{block_subsidy, effective_min_difficulty, BLOCK_REWARD, DAA_WINDOW, HALVING_INTERVAL, MAX_SUPPLY};

use hassan::{hop_difficulty_bounds, typical_signed_tx_min_fee, verify_pow, PQ_PUBLIC_KEY_SIZE, PQ_SIGNATURE_SIZE};

#[test]
fn hop_difficulty_bounds_widen_per_window_and_respect_floor() {
    let floor = effective_min_difficulty();
    let (lo1, hi1) = hop_difficulty_bounds(floor, 1, floor);
    assert_eq!(lo1, (floor as u128 * 3 / 4).max(floor as u128) as u64);
    assert!(hi1 >= floor);
    let (lo_far, hi_far) = hop_difficulty_bounds(floor * 4, DAA_WINDOW as u64 * 3, floor);
    assert!(lo_far >= floor);
    assert!(hi_far > hi1);
    let (lo_soft, _) = hop_difficulty_bounds(floor, 1, floor);
    assert_eq!(lo_soft, floor);
}

#[test]
fn verify_pow_does_not_panic_on_zero_difficulty() {
    let hash = hassan::hash::Hash::zero();
    assert!(verify_pow(&hash, 0));
}

#[test]
fn high_difficulty_rejects_a_large_hash_and_accepts_a_small_one() {
    let difficulty = 1u64 << 40;
    let mut large_hash = hassan::hash::Hash::zero();
    large_hash.0[4] = 0xff;
    let small_hash = hassan::hash::Hash::zero();
    assert!(!verify_pow(&large_hash, difficulty));
    assert!(verify_pow(&small_hash, difficulty));
}

#[test]
fn block_subsidy_halves_on_schedule_and_reaches_zero() {
    assert_eq!(block_subsidy(0), BLOCK_REWARD, "genesis-era subsidy is the full reward");
    assert_eq!(block_subsidy(HALVING_INTERVAL - 1), BLOCK_REWARD, "no halving before the interval");
    assert_eq!(block_subsidy(HALVING_INTERVAL), BLOCK_REWARD / 2, "first halving");
    assert_eq!(block_subsidy(HALVING_INTERVAL * 2), BLOCK_REWARD / 4, "second halving");
    assert_eq!(block_subsidy(HALVING_INTERVAL * 200), 0, "subsidy eventually reaches zero");
}

#[test]
fn issuance_is_hard_capped_at_max_supply() {
    let mut minted = MAX_SUPPLY - 10;
    let subsidy = block_subsidy(0).min(MAX_SUPPLY.saturating_sub(minted));
    assert_eq!(subsidy, 10);
    minted = minted.saturating_add(subsidy);
    assert_eq!(minted, MAX_SUPPLY);
    let at_cap = minted;
    let subsidy2 = block_subsidy(1).min(MAX_SUPPLY.saturating_sub(minted));
    assert_eq!(subsidy2, 0);
    minted = minted.saturating_add(subsidy2);
    assert_eq!(minted, at_cap, "no coins are minted past MAX_SUPPLY");
}

#[test]
fn fee_estimate_on_an_empty_mempool_returns_the_protocol_floor() {
    let state = ChainState::new();
    let floor = typical_signed_tx_min_fee();
    let est = state.estimate_fee();
    assert_eq!(est.low, floor);
    assert_eq!(est.medium, floor);
    assert_eq!(est.high, floor);
    assert_eq!(est.mempool_txs, 0);
    assert_eq!(est.package_count, 0);
    assert_eq!(est.best_package_fee, 0);
    assert_eq!(est.high_target_blues, FEE_TARGET_HIGH_BLUES);
    assert_eq!(est.medium_target_blues, FEE_TARGET_MEDIUM_BLUES);
    assert_eq!(est.low_target_blues, FEE_TARGET_LOW_BLUES);
}

#[test]
fn fee_estimate_confirmation_targets_prefer_history_over_mempool() {
    let mut state = ChainState::new();
    let floor = typical_signed_tx_min_fee();
    let typical_bytes = (PQ_PUBLIC_KEY_SIZE + PQ_SIGNATURE_SIZE + 512) as u128;
    let hist_rate = (floor / typical_bytes).saturating_add(50);
    state.fee_history.record(10, vec![hist_rate], vec![3]);
    let est = state.estimate_fee();
    let expected = hist_rate.saturating_mul(typical_bytes).max(floor);
    assert_eq!(est.high, expected);
    assert_eq!(est.high_target_blues, 6);
    assert_eq!(est.medium_target_blues, 20);
    assert_eq!(est.low_target_blues, 100);
}

#[test]
fn fee_history_success_walk_picks_minimum_rate_that_clears_target() {
    let mut hist = FeeRateHistory::default();
    hist.record(10, vec![100, 10], vec![2, 50]);
    assert_eq!(hist.estimate_for_target(6), Some(100));
    assert_eq!(hist.estimate_for_target(100), Some(10));
    let mut thin = FeeRateHistory::default();
    thin.record(10, vec![5], vec![80]);
    assert_eq!(thin.estimate_for_target(6), None);
}

#[test]
fn fee_estimate_tiers_are_monotonic_high_ge_medium_ge_low() {
    let mut state = ChainState::new();
    state.fee_history.record(1, vec![1], vec![0]);
    state.fee_history.record(2, vec![1000, 1000], vec![90, 90]);
    let est = state.estimate_fee();
    assert!(
        est.high >= est.medium && est.medium >= est.low,
        "tiers must be monotonic: high={} medium={} low={}",
        est.high,
        est.medium,
        est.low
    );
}

#[test]
fn pow_target_shrinks_as_difficulty_increases() {
    let easy = hassan::pow_target(1);
    let hard = hassan::pow_target(1_000_000);
    assert!(hard.as_slice() < easy.as_slice());
}
