use chrono::Datelike;
use git_intel::dates::{parse_since, parse_until, validate_range, days_from_civil};

#[test]
fn parse_since_valid_date() {
    let result = parse_since(&Some("2026-01-15".to_string())).unwrap();
    assert!(result.is_some());
    assert_eq!(result.unwrap(), 1768435200);
}

#[test]
fn parse_since_none() {
    let result = parse_since(&None).unwrap();
    assert!(result.is_none());
}

#[test]
fn parse_since_invalid_date() {
    let result = parse_since(&Some("not-a-date".to_string()));
    assert!(result.is_err());
}

#[test]
fn parse_since_edge_date() {
    let result = parse_since(&Some("2000-01-01".to_string())).unwrap();
    assert!(result.is_some());
    assert_eq!(result.unwrap(), 946684800);
}

#[test]
fn parse_until_valid_date() {
    let result = parse_until(&Some("2026-01-15".to_string())).unwrap();
    assert!(result.is_some());
    assert_eq!(result.unwrap(), 1768435200 + 86399);
}

#[test]
fn parse_until_none() {
    let result = parse_until(&None).unwrap();
    assert!(result.is_none());
}

#[test]
fn parse_until_invalid_date() {
    let result = parse_until(&Some("garbage".to_string()));
    assert!(result.is_err());
}

#[test]
fn validate_range_valid() {
    assert!(validate_range(Some(100), Some(200)).is_ok());
}

#[test]
fn validate_range_both_none() {
    assert!(validate_range(None, None).is_ok());
}

#[test]
fn validate_range_one_none() {
    assert!(validate_range(Some(100), None).is_ok());
    assert!(validate_range(None, Some(200)).is_ok());
}

#[test]
fn validate_range_inverted() {
    let result = validate_range(Some(200), Some(100));
    assert!(result.is_err());
    assert!(result.unwrap_err().contains("after"));
}

#[test]
fn validate_range_equal() {
    assert!(validate_range(Some(100), Some(100)).is_ok());
}

#[test]
fn parse_since_until_relative_range() {
    let since = parse_since(&Some("6m".to_string())).unwrap().unwrap();
    let until = parse_until(&Some("3m".to_string())).unwrap().unwrap();
    assert!(since < until, "6m ago should be before 3m ago");
    assert!(validate_range(Some(since), Some(until)).is_ok());
}

#[test]
fn parse_relative_resolves_to_absolute_epoch() {
    let ts1 = parse_since(&Some("30d".to_string())).unwrap().unwrap();
    let ts2 = parse_since(&Some("30d".to_string())).unwrap().unwrap();
    assert_eq!(ts1, ts2);
}

#[test]
fn parse_since_invalid_still_errors() {
    let result = parse_since(&Some("yesterday".to_string()));
    assert!(result.is_err());
}

#[test]
fn parse_since_relative_large_number() {
    let result = parse_since(&Some("365d".to_string())).unwrap();
    assert!(result.is_some());
}

#[test]
fn parse_since_relative_30d() {
    let result = parse_since(&Some("30d".to_string())).unwrap();
    assert!(result.is_some());
    let ts = result.unwrap();
    let expected_date = chrono::Utc::now().date_naive() - chrono::Duration::days(30);
    let expected_ts = expected_date.and_hms_opt(0, 0, 0).unwrap().and_utc().timestamp();
    assert_eq!(ts, expected_ts);
}

#[test]
fn parse_since_relative_1y() {
    let result = parse_since(&Some("1y".to_string())).unwrap();
    assert!(result.is_some());
    let ts = result.unwrap();
    let now = chrono::Utc::now().timestamp();
    let roughly_one_year = 365 * 86400;
    assert!((now - ts - roughly_one_year).unsigned_abs() < 2 * 86400);
}

#[test]
fn parse_until_relative_3m() {
    let result = parse_until(&Some("3m".to_string())).unwrap();
    assert!(result.is_some());
    let ts = result.unwrap();
    let expected_date =
        chrono::Utc::now().date_naive().checked_sub_months(chrono::Months::new(3)).unwrap();
    let expected_ts = expected_date.and_hms_opt(23, 59, 59).unwrap().and_utc().timestamp();
    assert_eq!(ts, expected_ts);
}

#[test]
fn civil_days_matches_chrono() {
    let d = chrono::NaiveDate::from_ymd_opt(2026, 1, 15).unwrap();
    let epoch = chrono::NaiveDate::from_ymd_opt(1970, 1, 1).unwrap();
    let expected = (d - epoch).num_days();
    assert_eq!(days_from_civil(2026, 1, 15), expected);
    assert_eq!(d.year(), 2026);
}
