use will_done::clock::add_minutes;
use will_done::clock::format_date;
use will_done::clock::format_timestamp;
use will_done::clock::instant_day;
use will_done::clock::instant_from_parts;
use will_done::clock::is_crossing_midnight;
use will_done::clock::is_same_day;
use will_done::clock::minutes_from_clock;
use will_done::clock::now_instant;
use will_done::clock::parse_date;
use will_done::clock::parse_timestamp;
use will_done::clock::time_to_minutes;
use will_done::clock::INSTANT_MAX;
use will_done::clock::INSTANT_MIN;
use will_done::daytime::extract_time;
use will_done::daytime::minutes_to_time;
use will_done::daytime::parse_iso_time;
use will_done::error::AppError;
use will_done::error::ErrorKind;

#[test]
fn test_time_to_minutes() {
    assert_eq!(time_to_minutes("00:00"), Some(0));
    assert_eq!(time_to_minutes("01:30"), Some(90));
    assert_eq!(time_to_minutes("12:00"), Some(720));
    assert_eq!(time_to_minutes("23:59"), Some(1439));
    assert_eq!(time_to_minutes("invalid"), None);
}

#[test]
fn test_minutes_to_time() {
    assert_eq!(minutes_to_time(0), "00:00");
    assert_eq!(minutes_to_time(90), "01:30");
    assert_eq!(minutes_to_time(720), "12:00");
    assert_eq!(minutes_to_time(1439), "23:59");
    assert_eq!(minutes_to_time(1500), "01:00"); // Wraps past 24 hours
}

#[test]
fn test_parse_iso_time() {
    assert_eq!(parse_iso_time("2024-01-15T09:30:00"), 570); // 9:30 = 9*60 + 30
    assert_eq!(parse_iso_time("2024-01-15T00:00:00"), 0);
    assert_eq!(parse_iso_time("2024-01-15T23:59:00"), 1439);
    assert_eq!(parse_iso_time("invalid"), 0);
}

#[test]
fn minutes_to_time_writes_negative_minutes_as_the_machine_divides() {
    assert_eq!(minutes_to_time(-61), format!("{:02}:{:02}", (-61i64 / 60) % 24, -61i64 % 60));
    assert_eq!(minutes_to_time(-61), "-1:-1");
    assert_eq!(minutes_to_time(-725), "-12:-5");
    assert_eq!(minutes_to_time(-1500), "-1:00");
    assert_eq!(minutes_to_time(i64::MIN), format!("{:02}:{:02}", (i64::MIN / 60) % 24, i64::MIN % 60));
    assert_eq!(minutes_to_time(i64::MAX), format!("{:02}:{:02}", (i64::MAX / 60) % 24, i64::MAX % 60));
}

#[test]
fn parse_iso_time_reads_fields_as_signed_integers() {
    assert_eq!(parse_iso_time("xTy"), 0);
    assert_eq!(parse_iso_time("T5"), 0);
    assert_eq!(parse_iso_time("T5:7"), 307);
    assert_eq!(parse_iso_time("T+5:-7"), 293);
    assert_eq!(parse_iso_time("T-2:30"), -90);
    assert_eq!(parse_iso_time("T:30"), 30);
    assert_eq!(parse_iso_time("T1:"), 60);
    assert_eq!(parse_iso_time("T1:2:3:4"), 62);
    assert_eq!(parse_iso_time("T1:2T3:4"), 62);
    assert_eq!(parse_iso_time("T1T2:3"), 0);
    assert_eq!(parse_iso_time("T0009:0030"), 570);
    assert_eq!(parse_iso_time("T 9:30"), 30);
    assert_eq!(parse_iso_time("T-:30"), 30);
    assert_eq!(parse_iso_time("T9223372036854775808:1"), 1);
    assert_eq!(parse_iso_time("T-9223372036854775808:0"), i64::MIN.wrapping_mul(60));
    assert_eq!(parse_iso_time("T9223372036854775807:5"), i64::MAX.wrapping_mul(60).wrapping_add(5));
    assert_eq!(parse_iso_time("T0:9223372036854775807"), i64::MAX);
    assert_eq!(parse_iso_time("T0:-9223372036854775808"), i64::MIN);
}

#[test]
fn extract_time_cuts_hour_and_minute() {
    assert_eq!(extract_time("2024-01-15T09:30:00"), "09:30");
    assert_eq!(extract_time("2024-01-15T23:59"), "23:59");
    assert_eq!(extract_time("invalid"), "00:00");
    assert_eq!(extract_time("2024-01-15T0930"), "00:00");
    assert_eq!(extract_time("aTb:cTd"), "b:c");
    assert_eq!(extract_time("T:"), ":");
    assert_eq!(extract_time("T\u{e9}:\u{4e2d}:x"), "\u{e9}:\u{4e2d}");
}

#[test]
fn parse_timestamp_counts_minutes_from_the_first_day() {
    assert_eq!(parse_timestamp("0001-01-01T00:00:00").ok(), Some(INSTANT_MIN));
    assert_eq!(parse_timestamp("0001-01-01T00:00:00").ok(), Some(1440));
    assert_eq!(parse_timestamp("9999-12-31T23:59:00").ok(), Some(INSTANT_MAX));
    assert_eq!(parse_timestamp("1970-01-01T00:00:00").ok(), Some(719_163 * 1440));
    assert_eq!(parse_timestamp("2026-03-01T18:10:00").ok(), Some(739_676 * 1440 + 18 * 60 + 10));
    assert_eq!(
        parse_timestamp("2026-03-01T18:10:59").ok(),
        parse_timestamp("2026-03-01T18:10:00").ok()
    );
}

#[test]
fn parse_timestamp_rejects_what_it_cannot_store() {
    for text in ["", "invalid", "2026-03-01", "2026-03-01 18:10:00", "2026-13-01T00:00:00",
        "2026-03-01T24:00:00", "0000-12-31T23:59:00", "+10000-01-01T00:00:00"]
    {
        match parse_timestamp(text) {
            Err(AppError::DateParse(_)) => {},
            other => panic!("{:?} gave {:?}", text, other),
        }
    }
}

#[test]
fn format_timestamp_writes_what_parse_timestamp_reads() {
    assert_eq!(format_timestamp(1440).as_deref(), Some("0001-01-01T00:00:00"));
    assert_eq!(format_timestamp(INSTANT_MAX).as_deref(), Some("9999-12-31T23:59:00"));
    let t = parse_timestamp("2026-03-01T18:10:00").unwrap();
    assert_eq!(format_timestamp(t).as_deref(), Some("2026-03-01T18:10:00"));
    assert_eq!(format_timestamp(t + 20).as_deref(), Some("2026-03-01T18:30:00"));
    assert_eq!(format_timestamp(t + 6 * 60).as_deref(), Some("2026-03-02T00:10:00"));
    assert_eq!(format_timestamp(1439), None);
    assert_eq!(format_timestamp(INSTANT_MAX + 1), None);
    assert_eq!(format_timestamp(-5), None);
}

#[test]
fn dates_are_day_numbers() {
    assert_eq!(parse_date("0001-01-01").ok(), Some(1));
    assert_eq!(parse_date("1970-01-01").ok(), Some(719_163));
    assert_eq!(parse_date("9999-12-31").ok(), Some(3_652_059));
    assert_eq!(parse_date("2026-03-01").ok(), Some(739_676));
    assert!(matches!(parse_date("2026-3-x"), Err(AppError::DateParse(_))));
    assert!(matches!(parse_date("0000-12-31"), Err(AppError::DateParse(_))));
    assert_eq!(format_date(739_676).as_deref(), Some("2026-03-01"));
    assert_eq!(format_date(1).as_deref(), Some("0001-01-01"));
    assert_eq!(format_date(3_652_059).as_deref(), Some("9999-12-31"));
    assert_eq!(format_date(0), None);
    assert_eq!(format_date(3_652_060), None);
}

#[test]
fn instants_combine_days_and_seconds() {
    assert_eq!(instant_from_parts(1, 0), Some(1440));
    assert_eq!(instant_from_parts(1, 59), Some(1440));
    assert_eq!(instant_from_parts(1, 60), Some(1441));
    assert_eq!(instant_from_parts(2, 86_399), Some(2 * 1440 + 1439));
    assert_eq!(instant_from_parts(2, 86_400), None);
    assert_eq!(instant_from_parts(0, 0), None);
    assert_eq!(instant_from_parts(-1, 0), None);
    assert_eq!(instant_from_parts(3_652_059, 86_399), Some(INSTANT_MAX));
    assert_eq!(instant_from_parts(3_652_060, 0), None);
    assert_eq!(instant_from_parts(i32::MAX, 0), None);
    assert_eq!(instant_from_parts(i32::MIN, 0), None);
    assert_eq!(minutes_from_clock(0, 0), 0);
    assert_eq!(minutes_from_clock(23, 59), 1439);
    assert_eq!(minutes_from_clock(1, 30), 90);
}

#[test]
fn minute_arithmetic_stays_in_the_stored_range() {
    assert_eq!(add_minutes(1440, 0), Some(1440));
    assert_eq!(add_minutes(1440, -1), None);
    assert_eq!(add_minutes(INSTANT_MAX, 1), None);
    assert_eq!(add_minutes(INSTANT_MAX, -1), Some(INSTANT_MAX - 1));
    assert_eq!(add_minutes(2000, i64::MAX), None);
    assert_eq!(add_minutes(2000, i64::MIN), None);
    assert_eq!(add_minutes(5000, 25), Some(5025));
    assert_eq!(instant_day(1440), 1);
    assert_eq!(instant_day(2879), 1);
    assert_eq!(instant_day(2880), 2);
    assert_eq!(instant_day(-1), -1);
    assert_eq!(instant_day(-1440), -1);
    assert_eq!(instant_day(-1441), -2);
    assert_eq!(instant_day(0), 0);
    assert!(is_same_day(1440, 2879));
    assert!(!is_same_day(2879, 2880));
    assert!(!is_same_day(-1, 0));
}

#[test]
fn midnight_is_crossed_when_the_end_reaches_the_next_day() {
    let evening = parse_timestamp("2026-03-01T23:40:00").unwrap();
    assert!(is_crossing_midnight(evening, 60));
    assert!(is_crossing_midnight(evening, 20));
    assert!(!is_crossing_midnight(evening, 19));
    assert!(!is_crossing_midnight(evening, 0));
    assert!(!is_crossing_midnight(evening, -5000));
    assert!(is_crossing_midnight(evening, i64::MAX));
    assert!(!is_crossing_midnight(evening, i64::MIN));
}

#[test]
fn the_clock_shows_a_stored_instant() {
    let now = now_instant().expect("the clock is within the calendar");
    assert!(INSTANT_MIN <= now && now <= INSTANT_MAX);
    assert!(now > parse_timestamp("2020-01-01T00:00:00").unwrap());
}

#[test]
fn errors_flatten_to_a_label_and_a_detail() {
    assert_eq!(AppError::Database("x".to_string()).message(), "Database error: x");
    assert_eq!(AppError::Network("x".to_string()).message(), "Network error: x");
    assert_eq!(AppError::Io("x".to_string()).message(), "IO error: x");
    assert_eq!(AppError::Internal("x".to_string()).message(), "Internal error: x");
    assert_eq!(AppError::DateParse("x".to_string()).message(), "Date parse error: x");
    assert_eq!(AppError::InvalidInput("x".to_string()).message(), "Invalid input: x");
    assert_eq!(AppError::Unauthorized("x".to_string()).message(), "Unauthorized: x");
    assert_eq!(AppError::NotFound("x".to_string()).message(), "Not found: x");
    assert_eq!(AppError::NotFound(String::new()).kind(), ErrorKind::NotFound);
    assert_eq!(AppError::Database(String::new()).kind(), ErrorKind::Database);
    assert_eq!(AppError::InvalidInput(String::new()).kind(), ErrorKind::InvalidInput);
}
