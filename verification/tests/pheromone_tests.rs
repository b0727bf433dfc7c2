use knights_tour::pheromone::{
    decay, from_ratio, raise, reward_for, weight, DEPOSIT_RATE, MAX_LEVEL, UNIT,
};

#[test]
fn unit_is_two_to_the_thirty_two() {
    assert_eq!(UNIT, 1u64 << 32);
    assert_eq!(DEPOSIT_RATE, UNIT);
    assert_eq!(MAX_LEVEL, u64::MAX);
}

#[test]
fn decay_of_one_by_a_quarter_is_three_quarters() {
    assert_eq!(decay(UNIT, UNIT / 4), 3_221_225_472);
}

#[test]
fn decay_keeps_the_whole_part() {
    assert_eq!(decay(10, UNIT / 4), 7);
    assert_eq!(decay(1, 1), 0);
    assert_eq!(decay(0, 5), 0);
    assert_eq!(decay(u64::MAX, 0), u64::MAX);
    assert_eq!(decay(u64::MAX, UNIT / 2), u64::MAX / 2);
    assert_eq!(decay(4294, UNIT / 4), 3220);
}

#[test]
fn reward_of_a_complete_tour_is_the_full_rate_at_every_step() {
    for step in 0..63 {
        assert_eq!(reward_for(63, step), DEPOSIT_RATE);
    }
}

#[test]
fn reward_falls_towards_a_dead_end() {
    assert_eq!(reward_for(10, 0), 681_740_840);
    assert_eq!(reward_for(2, 0), 136_348_168);
    assert_eq!(reward_for(2, 1), 69_273_666);
    assert_eq!(reward_for(1, 0), UNIT / 63);
    assert_eq!(reward_for(62, 61), UNIT / 2);
    assert!(reward_for(10, 9) < reward_for(10, 0));
}

#[test]
fn raise_adds_and_stops_at_the_largest_level() {
    assert_eq!(raise(5, 7), 12);
    assert_eq!(raise(0, 0), 0);
    assert_eq!(raise(u64::MAX - 1, 1), u64::MAX);
    assert_eq!(raise(u64::MAX - 1, 2), u64::MAX);
    assert_eq!(raise(u64::MAX, u64::MAX), u64::MAX);
}

#[test]
fn weight_is_the_level() {
    assert_eq!(weight(0), 0);
    assert_eq!(weight(4294), 4294);
    assert_eq!(weight(u64::MAX), u64::MAX);
}

#[test]
fn from_ratio_scales_and_rounds_down() {
    assert_eq!(from_ratio(1, 4), Some(1_073_741_824));
    assert_eq!(from_ratio(1, 1_000_000), Some(4294));
    assert_eq!(from_ratio(3, 1), Some(3 * UNIT));
    assert_eq!(from_ratio(0, 9), Some(0));
    assert_eq!(from_ratio(u64::MAX, UNIT), Some(u64::MAX));
}

#[test]
fn from_ratio_refuses_zero_divisor_and_overflow() {
    assert_eq!(from_ratio(1, 0), None);
    assert_eq!(from_ratio(0, 0), None);
    assert_eq!(from_ratio(UNIT, 1), None);
    assert_eq!(from_ratio(u64::MAX, 1), None);
    assert_eq!(from_ratio(UNIT - 1, 1), Some((UNIT - 1) * UNIT));
}
