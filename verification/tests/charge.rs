use ladekalk::charge::Calculator;

#[test]
fn sixty_kwh_from_twenty_to_eighty_percent_takes_five_hours() {
    // (48 - 12) / 7.4 = 4.86 hours, which rounds to 5.
    assert_eq!(Calculator::calc_charge_time(60, 7_400, 20_000, 80_000), Some(18_000));
}

#[test]
fn target_below_level_gives_negative_time() {
    assert_eq!(Calculator::calc_charge_time(60, 7_400, 80_000, 20_000), Some(-18_000));
}

#[test]
fn negative_rate_gives_negative_time() {
    assert_eq!(Calculator::calc_charge_time(60, -7_400, 20_000, 80_000), Some(-18_000));
}

#[test]
fn equal_levels_take_no_time() {
    assert_eq!(Calculator::calc_charge_time(60, 7_400, 50_000, 50_000), Some(0));
}

#[test]
fn half_an_hour_rounds_away_from_zero() {
    assert_eq!(Calculator::calc_charge_time(1, 1_000, 0, 50_000), Some(3_600));
    assert_eq!(Calculator::calc_charge_time(1, 1_000, 50_000, 0), Some(-3_600));
    assert_eq!(Calculator::calc_charge_time(3, 1_000, 0, 50_000), Some(7_200));
}

#[test]
fn just_under_half_an_hour_rounds_down() {
    assert_eq!(Calculator::calc_charge_time(1, 1_000, 0, 49_999), Some(0));
    assert_eq!(Calculator::calc_charge_time(1, 1_000, 0, 149_999), Some(3_600));
}

#[test]
fn zero_rate_has_no_answer() {
    assert_eq!(Calculator::calc_charge_time(60, 0, 20_000, 80_000), None);
}

#[test]
fn time_beyond_i64_has_no_answer() {
    assert_eq!(Calculator::calc_charge_time(i64::MAX, 1, i64::MIN, i64::MAX), None);
    assert_eq!(Calculator::calc_charge_time(i64::MIN, 1, i64::MIN, i64::MAX), None);
}

#[test]
fn longest_time_that_fits() {
    // 2562047788015215 hours is the most that fits in an i64 of seconds.
    assert_eq!(
        Calculator::calc_charge_time(2_562_047_788_015_215, 1, 0, 100),
        Some(2_562_047_788_015_215 * 3_600)
    );
    assert_eq!(Calculator::calc_charge_time(2_562_047_788_015_216, 1, 0, 100), None);
}
