use tinyproxy_log_parse::calendar::{
    date_time_to_timestamp, is_leap_year, timestamp_get_year, timestamp_to_date_time, DateError,
};

#[test]
fn test_date_time_to_timestamp() {
    let result = date_time_to_timestamp(String::from("Jan 1 00:00:00 1970")).unwrap();
    assert_eq!(result, 0);
    let result = date_time_to_timestamp(String::from("Jun 14 20:25:00 2019")).unwrap();
    assert_eq!(result, 1560543900);
    let result = date_time_to_timestamp(String::from("Oct 29 12:31:56 2020")).unwrap();
    assert_eq!(result, 1603974716);
}

#[test]
fn test_timestamp_to_date_time() {
    let result = timestamp_to_date_time(0);
    assert_eq!(result, String::from("Jan 1 00:00:00 1970"));
    let result = timestamp_to_date_time(1560543900);
    assert_eq!(result, String::from("Jun 14 20:25:00 2019"));
    let result = timestamp_to_date_time(1603974716);
    assert_eq!(result, String::from("Oct 29 12:31:56 2020"));
}

#[test]
fn test_timestamp_get_year() {
    let result = timestamp_get_year(1560543900);
    assert_eq!(result, 2019);
    let result = timestamp_get_year(1603974716);
    assert_eq!(result, 2020);
}

#[test]
fn round_trip_over_years() {
    let epochs: [u64; 9] = [
        0,
        1560543900,
        1603974716,
        951782400,  // Feb 29 2000
        4133980799, // Dec 31 2100, last second
        68169600,   // Mar 1 1972
        1709164800, // Feb 29 2024
        59,
        86399,
    ];
    for e in epochs {
        let text = timestamp_to_date_time(e);
        assert_eq!(date_time_to_timestamp(text), Ok(e));
    }
}

#[test]
fn leap_day_is_rendered() {
    assert_eq!(timestamp_to_date_time(951782400), "Feb 29 00:00:00 2000");
    assert_eq!(timestamp_to_date_time(1709164800), "Feb 29 00:00:00 2024");
    assert_eq!(timestamp_to_date_time(4133980799), "Dec 31 23:59:59 2100");
}

#[test]
fn year_boundaries() {
    assert_eq!(timestamp_get_year(0), 1970);
    assert_eq!(timestamp_get_year(31535999), 1970);
    assert_eq!(timestamp_get_year(31536000), 1971);
}

#[test]
fn leap_rule() {
    assert!(is_leap_year(2000));
    assert!(is_leap_year(2020));
    assert!(!is_leap_year(1900));
    assert!(!is_leap_year(2019));
    assert!(!is_leap_year(3200));
    assert!(is_leap_year(2400));
}

#[test]
fn blank_text_reads_as_zero() {
    assert_eq!(date_time_to_timestamp(String::new()), Ok(0));
    assert_eq!(date_time_to_timestamp(String::from("   \t ")), Ok(0));
}

#[test]
fn unknown_month_is_rejected() {
    assert_eq!(
        date_time_to_timestamp(String::from("Foo 1 00:00:00 2019")),
        Err(DateError::InvalidMonth)
    );
    assert_eq!(
        date_time_to_timestamp(String::from("jan 1 00:00:00 2019")),
        Err(DateError::InvalidMonth)
    );
}

#[test]
fn bad_numbers_are_rejected() {
    let bad = [
        "Jan x 00:00:00 2019",
        "Jan 1 00:00 2019",
        "Jan 1 aa:00:00 2019",
        "Jan 1 00:00:00 19x9",
        "Foo 1 00:00:00 19x9",
        "Jan 1",
        "Jan 0 00:00:00 2019",
    ];
    for b in bad {
        assert_eq!(
            date_time_to_timestamp(String::from(b)),
            Err(DateError::InvalidFormat),
            "{}",
            b
        );
    }
}

#[test]
fn extra_spaces_between_words() {
    assert_eq!(
        date_time_to_timestamp(String::from("  Jun  14 20:25:00   2019 ")),
        Ok(1560543900)
    );
}

#[test]
fn years_before_epoch_count_as_nineteen_seventy() {
    assert_eq!(date_time_to_timestamp(String::from("Jan 2 00:00:00 1969")), Ok(86400));
}

#[test]
fn unicode_blank_text_reads_as_zero() {
    assert_eq!(date_time_to_timestamp(String::from("\u{a0}")), Ok(0));
    assert_eq!(date_time_to_timestamp(String::from(" \u{3000}\u{2028} ")), Ok(0));
}

#[test]
fn time_fields_are_trimmed() {
    assert_eq!(
        date_time_to_timestamp(String::from("Jun 14 20:25:00\t 2019")),
        Ok(1560543900)
    );
    assert_eq!(
        date_time_to_timestamp(String::from("Jun 14 \u{a0}20:\u{2003}25:00 2019")),
        Ok(1560543900)
    );
}

#[test]
fn unicode_whitespace_word_is_dropped() {
    assert_eq!(
        date_time_to_timestamp(String::from("Jun \u{a0} 14 20:25:00 2019")),
        Ok(1560543900)
    );
}
