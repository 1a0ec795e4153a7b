use shuffle_iter::calendar::get_days_from_month;
use shuffle_iter::calendar::month_iter;

const JANUARY_2020: &str = " Mo Tu We Th Fr Sa So\n        1  2  3  4  5\n  6  7  8  9 10 11 12\n 13 14 15 16 17 18 19\n 20 21 22 23 24 25 26\n 27 28 29 30 31";

#[test]
fn days_per_month_follow_the_leap_rule() {
    assert_eq!(29, get_days_from_month(2020, 2));
    assert_eq!(28, get_days_from_month(1900, 2));
    assert_eq!(29, get_days_from_month(2000, 2));
    assert_eq!(28, get_days_from_month(2021, 2));
    assert_eq!(30, get_days_from_month(2021, 4));
    assert_eq!(31, get_days_from_month(2021, 1));
    assert_eq!(31, get_days_from_month(2021, 12));
}

#[test]
fn first_month_text_is_rendered_exactly() {
    let mut it = month_iter(2020, 1);
    assert_eq!(1, it.month());
    assert_eq!(2020, it.year());
    let text = it.next();
    assert_eq!(JANUARY_2020, text);
    assert_eq!(2, it.month());
    assert_eq!(2020, it.year());
}

#[test]
fn month_count_carries_into_later_years() {
    // The 24th month counted from the start of 2020 is December 2021.
    let mut it = month_iter(2020, 24);
    assert_eq!(12, it.month());
    assert_eq!(2021, it.year());
    // December 2021 lays out exactly like January 2020: both open on a
    // Wednesday and have 31 days.
    let text = it.next();
    assert_eq!(JANUARY_2020, text);
    assert_eq!(1, it.month());
    assert_eq!(2022, it.year());
}
