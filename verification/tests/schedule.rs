use chrono::{Datelike, NaiveDate};
use fastreach_core::graph::Error;
use fastreach_core::schedule::{decode_date, runs_on_day, split_instant, test_bit};

fn epoch_day(year: i32, month: u32, day: u32) -> i64 {
    i64::from(
        NaiveDate::from_ymd_opt(year, month, day)
            .unwrap()
            .num_days_from_ce(),
    ) - 719_163
}

#[test]
fn dates_are_decoded_from_year_2000_on() {
    assert_eq!(decode_date(101), Some(10_957));
    assert_eq!(decode_date(231_018), Some(19_648));
    assert_eq!(decode_date(231_018), Some(epoch_day(2023, 10, 18)));
    assert_eq!(decode_date(1_271_231), Some(epoch_day(2127, 12, 31)));
    assert_eq!(decode_date(240_229), Some(epoch_day(2024, 2, 29)));
}

#[test]
fn impossible_dates_name_no_day() {
    assert_eq!(decode_date(0), None);
    assert_eq!(decode_date(100), None);
    assert_eq!(decode_date(1), None);
    assert_eq!(decode_date(230_229), None);
    assert_eq!(decode_date(231_301), None);
    assert_eq!(decode_date(230_431), None);
    assert_eq!(decode_date(239_999), None);
    assert_eq!(decode_date(1_280_101), None);
    assert_eq!(decode_date(u32::MAX), None);
}

#[test]
fn period_runs_where_its_bit_is_set() {
    let bitmap = [0b0000_0101u8, 0b0000_0001];
    assert_eq!(runs_on_day(10, 20, &bitmap, 9), Ok(false));
    assert_eq!(runs_on_day(10, 20, &bitmap, 10), Ok(true));
    assert_eq!(runs_on_day(10, 20, &bitmap, 11), Ok(false));
    assert_eq!(runs_on_day(10, 20, &bitmap, 12), Ok(true));
    assert_eq!(runs_on_day(10, 20, &bitmap, 17), Ok(false));
    assert_eq!(runs_on_day(10, 20, &bitmap, 18), Ok(true));
    assert_eq!(runs_on_day(10, 20, &bitmap, 19), Ok(false));
    assert_eq!(runs_on_day(10, 20, &bitmap, 20), Ok(false));
    assert_eq!(runs_on_day(10, 20, &bitmap, 21), Ok(false));
    assert_eq!(runs_on_day(10, 17, &[0x80], 17), Ok(true));
    assert_eq!(runs_on_day(-3, -3, &[1], -3), Ok(true));
}

#[test]
fn first_day_is_the_lowest_bit() {
    for byte in 0..=255u8 {
        assert_eq!(runs_on_day(5, 5, &[byte], 5), Ok(byte & 1 == 1));
        assert_eq!(runs_on_day(5, 9, &[byte, 0xFF], 5), Ok(byte & 1 == 1));
    }
}

#[test]
fn window_that_ends_before_it_starts_never_runs() {
    assert_eq!(runs_on_day(6, 5, &[0xFF], 5), Ok(false));
    assert_eq!(runs_on_day(6, 5, &[0xFF], 6), Ok(false));
}

#[test]
fn bitmap_without_a_byte_for_the_day_is_malformed() {
    assert_eq!(runs_on_day(10, 30, &[1], 17), Ok(false));
    assert_eq!(runs_on_day(10, 30, &[1], 18), Err(Error::MalformedGraph));
    assert_eq!(runs_on_day(10, 30, &[], 10), Err(Error::MalformedGraph));
    assert_eq!(
        runs_on_day(i64::MIN, i64::MAX, &[1], i64::MAX),
        Err(Error::MalformedGraph)
    );
    assert_eq!(runs_on_day(i64::MIN, i64::MAX, &[1], i64::MIN), Ok(true));
}

#[test]
fn bits_count_from_the_least_significant() {
    assert!(test_bit(0b0000_0001, 0));
    assert!(!test_bit(0b0000_0001, 1));
    assert!(test_bit(0b1000_0000, 7));
    assert!(!test_bit(0b0111_1111, 7));
}

#[test]
fn instants_split_into_day_and_time_of_day() {
    assert_eq!(split_instant(0, 0), (0, 0));
    assert_eq!(split_instant(0, 86_399_999), (0, 86_399_999));
    assert_eq!(split_instant(1, 86_399_999), (1, 0));
    assert_eq!(split_instant(-1, 0), (-1, 86_399_999));
    assert_eq!(split_instant(-86_400_000, 0), (-1, 0));
    assert_eq!(split_instant(-86_400_001, 0), (-2, 86_399_999));
    assert_eq!(split_instant(1_697_623_200_000, 0), (19_648, 36_000_000));
    assert_eq!(split_instant(1_697_623_200_000, 50_400_000), (19_649, 0));
    assert_eq!(
        split_instant(i64::MAX, i64::MAX),
        (213_503_982_334, 51_951_614)
    );
    assert_eq!(split_instant(i64::MIN, 0), (-106_751_991_168, 60_424_192));
}
