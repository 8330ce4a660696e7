use rustychickpeas_ldbc::dates::{days_from_civil, parse_date, parse_ms};
use rustychickpeas_ldbc::ranking::top_k_by_count;

#[test]
fn days_from_civil_epoch_and_known_dates() {
    assert_eq!(days_from_civil(1970, 1, 1), 0);
    assert_eq!(days_from_civil(1970, 1, 2), 1);
    assert_eq!(days_from_civil(2000, 3, 1), 11017);
    assert_eq!(days_from_civil(2013, 1, 1), 15706);
    assert_eq!(days_from_civil(1969, 12, 31), -1);
    assert_eq!(days_from_civil(1600, 1, 1), -135140);
}

#[test]
fn days_from_civil_handles_leap_years() {
    assert_eq!(days_from_civil(2012, 3, 1) - days_from_civil(2012, 2, 28), 2);
    assert_eq!(days_from_civil(1900, 3, 1) - days_from_civil(1900, 2, 28), 1);
    assert_eq!(days_from_civil(2000, 3, 1) - days_from_civil(2000, 2, 28), 2);
}

#[test]
fn parse_date_reads_year_and_day() {
    assert_eq!(
        parse_date("2010-02-24T08:06:02.996+00:00"),
        Some((2010, days_from_civil(2010, 2, 24)))
    );
    assert_eq!(parse_date("2010-02-24"), Some((2010, 14664)));
    assert_eq!(parse_date("2010-02-2"), None);
    assert_eq!(parse_date("20x0-02-24"), None);
    assert_eq!(parse_date("2010-0x-24"), None);
}

#[test]
fn parse_ms_reads_time_of_day() {
    let day = days_from_civil(2010, 2, 24);
    assert_eq!(
        parse_ms("2010-02-24T08:06:02.996+00:00"),
        day * 86_400_000 + 8 * 3_600_000 + 6 * 60_000 + 2 * 1_000 + 996
    );
    assert_eq!(parse_ms("2010-02-24"), day * 86_400_000);
    assert_eq!(parse_ms("2010-02-24T08:xx:02"), day * 86_400_000 + 8 * 3_600_000 + 2_000);
    assert_eq!(parse_ms("garbage"), 0);
}

#[test]
fn top_k_orders_by_count_then_id_and_truncates() {
    let rows = top_k_by_count(vec![(5, 1), (2, 3), (9, 3), (1, 2)], 3);
    assert_eq!(rows, vec![(2, 3), (9, 3), (1, 2)]);
    assert_eq!(top_k_by_count(vec![(4, 1)], 10), vec![(4, 1)]);
    assert_eq!(top_k_by_count(vec![(4, 1), (3, 1)], 0), vec![]);
}

#[test]
fn days_from_civil_repeats_every_four_centuries() {
    assert_eq!(days_from_civil(2400, 1, 1) - days_from_civil(2000, 1, 1), 146097);
    assert_eq!(days_from_civil(1999, 12, 31) + 1, days_from_civil(2000, 1, 1));
}
