use broadcast_discovery::cleaner::{parse_string_to_timestamp, warp_to_i64};

#[test]
fn test_warp_to_i64() {
    assert_eq!(warp_to_i64(0), 0);
    assert_eq!(warp_to_i64(1), 1);
    assert_eq!(warp_to_i64(5), 5);
}

#[test]
fn test_parse_date() {
    let date_time = "2023-02-12 03_10_00";
    let date_time = parse_string_to_timestamp(date_time).unwrap();
    assert_eq!(date_time, 1676142600);
    let date_time = "2023-02-12";
    let date_time = parse_string_to_timestamp(date_time).unwrap();
    assert_eq!(date_time, 1676131200)
}

#[test]
fn parse_date_rejects_bad_shapes() {
    assert!(parse_string_to_timestamp("").is_none());
    assert!(parse_string_to_timestamp("2023-02-30").is_none());
    assert!(parse_string_to_timestamp("2023-13-01").is_none());
    assert!(parse_string_to_timestamp("2023-02-12 25_00_00").is_none());
    assert!(parse_string_to_timestamp("not a date!").is_none());
}

#[test]
fn parse_date_handles_leap_years() {
    // one day after 2024-02-28, a leap year
    let feb29 = parse_string_to_timestamp("2024-02-29").unwrap();
    let feb28 = parse_string_to_timestamp("2024-02-28").unwrap();
    assert_eq!(feb29 - feb28, 86400);
    assert!(parse_string_to_timestamp("2023-02-29").is_none());
}
