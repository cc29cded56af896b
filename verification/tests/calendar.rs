use jolt_core::calendar::days_to_month_day;

#[test]
fn month_and_day_of_the_year() {
    assert_eq!(days_to_month_day(0), (1, 1));
    assert_eq!(days_to_month_day(30), (1, 31));
    assert_eq!(days_to_month_day(31), (2, 1));
    assert_eq!(days_to_month_day(58), (2, 28));
    assert_eq!(days_to_month_day(59), (3, 1));
    assert_eq!(days_to_month_day(364), (12, 31));
    assert_eq!(days_to_month_day(365), (1, 1));
    assert_eq!(days_to_month_day(365 * 55 + 40), (2, 10));
}
