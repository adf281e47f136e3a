use fx_store::calendar::{civil_to_ts, epoch_ts, ts_to_date};

const DAY: u64 = 86_400_000_000_000;

#[test]
fn day_key_of_the_epoch_and_after() {
    assert_eq!(ts_to_date(0), 19700101);
    assert_eq!(ts_to_date(DAY - 1), 19700101);
    assert_eq!(ts_to_date(DAY), 19700102);
    assert_eq!(ts_to_date(1_705_311_000_000_000_000), 20240115);
    assert_eq!(ts_to_date(1_705_363_199_999_999_999), 20240115);
    assert_eq!(ts_to_date(1_705_363_200_000_000_000), 20240116);
    assert_eq!(ts_to_date(1_709_208_000_000_000_000), 20240229);
}

#[test]
fn day_key_reaches_the_end_of_the_range() {
    assert_eq!(ts_to_date(9_223_372_036_854_775_807), 22620411);
    assert_eq!(ts_to_date(9_223_372_036_854_775_808), 22620411);
    assert_eq!(ts_to_date(u64::MAX), 25540721);
}

#[test]
fn day_keys_follow_time() {
    let mut last = 0;
    let mut ts: u64 = 0;
    for _ in 0..800 {
        let key = ts_to_date(ts);
        assert!(key > last);
        assert_eq!(ts_to_date(ts + DAY - 1), key);
        last = key;
        ts += DAY;
    }
    assert_eq!(last, 19720310);
}

#[test]
fn civil_time_to_timestamp() {
    assert_eq!(civil_to_ts(1970, 1, 1, 0, 0, 0), Some(0));
    assert_eq!(civil_to_ts(2024, 1, 15, 9, 30, 0), Some(1_705_311_000_000_000_000));
    assert_eq!(civil_to_ts(2024, 2, 29, 12, 0, 0), Some(1_709_208_000_000_000_000));
    assert_eq!(civil_to_ts(2262, 4, 11, 23, 47, 16), Some(9_223_372_036_000_000_000));
}

#[test]
fn civil_time_that_does_not_exist_or_fit() {
    assert_eq!(civil_to_ts(2023, 2, 29, 0, 0, 0), None);
    assert_eq!(civil_to_ts(2024, 0, 1, 0, 0, 0), None);
    assert_eq!(civil_to_ts(2024, 13, 1, 0, 0, 0), None);
    assert_eq!(civil_to_ts(2024, 1, 32, 0, 0, 0), None);
    assert_eq!(civil_to_ts(2024, 1, 1, 24, 0, 0), None);
    assert_eq!(civil_to_ts(2024, 1, 1, 0, 60, 0), None);
    assert_eq!(civil_to_ts(2024, 1, 1, 0, 0, 60), None);
    assert_eq!(civil_to_ts(1969, 12, 31, 23, 59, 59), None);
    assert_eq!(civil_to_ts(2262, 4, 11, 23, 47, 17), None);
    assert_eq!(civil_to_ts(300000, 1, 1, 0, 0, 0), None);
}

#[test]
fn timestamps_before_the_epoch_are_none() {
    assert_eq!(epoch_ts(None), None);
    assert_eq!(epoch_ts(Some(-1)), None);
    assert_eq!(epoch_ts(Some(i64::MIN)), None);
    assert_eq!(epoch_ts(Some(0)), Some(0));
    assert_eq!(epoch_ts(Some(i64::MAX)), Some(9_223_372_036_854_775_807));
}

#[test]
fn civil_time_and_day_key_agree() {
    let ts = civil_to_ts(2031, 12, 31, 23, 59, 59).unwrap();
    assert_eq!(ts_to_date(ts), 20311231);
    assert_eq!(ts_to_date(ts + 1_000_000_000), 20320101);
}
