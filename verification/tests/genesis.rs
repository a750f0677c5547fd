use hassan::genesis::{
    cumulative_issuance, era_min_difficulty, BLOCK_REWARD, BLOCK_REWARD_COINS, BLOCK_TIME_MS,
    BOOTSTRAP_ERA_END, BOOTSTRAP_MIN_DIFFICULTY, COIN, DAA_WINDOW_CONSENSUS, FINALITY_DEPTH_CONSENSUS,
    FINALITY_TARGET_HOURS, GENESIS_TIMESTAMP_MS, HALVING_INTERVAL, HARD_ERA_MIN_DIFFICULTY,
    LAB_EASY_DIFFICULTY, MAX_SUPPLY, MAX_SUPPLY_COINS, MIN_DIFFICULTY, PRUNING_DEPTH_CONSENSUS,
};

#[test]
fn geometric_sum_is_exactly_25m_coins() {
    let sum_coins = 2 * BLOCK_REWARD_COINS * (HALVING_INTERVAL as u128);
    assert_eq!(sum_coins, MAX_SUPPLY_COINS);
    assert_eq!(MAX_SUPPLY, MAX_SUPPLY_COINS * COIN);
    assert_eq!(BLOCK_REWARD, 50 * COIN);
}

#[test]
fn cumulative_issuance_respects_cap() {
    let far = cumulative_issuance(HALVING_INTERVAL * 200);
    assert!(far <= MAX_SUPPLY);
    assert!(
        far > MAX_SUPPLY - COIN,
        "scheduled mint should reach within 1 HSN of the 25M cap (got {far})"
    );
    assert_eq!(cumulative_issuance(0), 0);
    assert_eq!(cumulative_issuance(1), BLOCK_REWARD);
    assert_eq!(cumulative_issuance(2), 2 * BLOCK_REWARD);
}

#[test]
fn pow_eras_bootstrap_then_hard() {
    assert_eq!(MIN_DIFFICULTY, BOOTSTRAP_MIN_DIFFICULTY);
    assert_eq!(BOOTSTRAP_MIN_DIFFICULTY, 7000);
    assert_eq!(LAB_EASY_DIFFICULTY, BOOTSTRAP_MIN_DIFFICULTY);
    assert_eq!(HARD_ERA_MIN_DIFFICULTY, 16_777_216);
    assert_eq!(FINALITY_TARGET_HOURS, 12);
    assert_eq!(FINALITY_DEPTH_CONSENSUS, 432_000);
    assert_eq!(
        FINALITY_DEPTH_CONSENSUS,
        FINALITY_TARGET_HOURS.saturating_mul(3_600_000) / BLOCK_TIME_MS
    );
    assert_eq!(DAA_WINDOW_CONSENSUS, 661);
    assert_eq!(PRUNING_DEPTH_CONSENSUS, 864_000);
    assert_eq!(era_min_difficulty(0, GENESIS_TIMESTAMP_MS), BOOTSTRAP_MIN_DIFFICULTY);
    assert_eq!(
        era_min_difficulty(BOOTSTRAP_ERA_END.saturating_sub(1), GENESIS_TIMESTAMP_MS),
        BOOTSTRAP_MIN_DIFFICULTY
    );
    assert_eq!(
        era_min_difficulty(BOOTSTRAP_ERA_END, GENESIS_TIMESTAMP_MS),
        HARD_ERA_MIN_DIFFICULTY,
        "at 1M HSN minted the hard floor applies"
    );
    assert_eq!(
        era_min_difficulty(BOOTSTRAP_ERA_END.saturating_add(COIN), GENESIS_TIMESTAMP_MS),
        HARD_ERA_MIN_DIFFICULTY
    );
}
