use timely::{convert_date_to_string, days_in_month, is_leap_year, month_num_to_month, parse_date,
    Month, TaskDate};

#[test]
fn month_numbers_map_to_months() {
    assert_eq!(month_num_to_month(1), Some(Month::January));
    assert_eq!(month_num_to_month(2), Some(Month::February));
    assert_eq!(month_num_to_month(3), Some(Month::March));
    assert_eq!(month_num_to_month(4), Some(Month::April));
    assert_eq!(month_num_to_month(5), Some(Month::May));
    assert_eq!(month_num_to_month(6), Some(Month::June));
    assert_eq!(month_num_to_month(7), Some(Month::July));
    assert_eq!(month_num_to_month(8), Some(Month::August));
    assert_eq!(month_num_to_month(9), Some(Month::September));
    assert_eq!(month_num_to_month(10), Some(Month::October));
    assert_eq!(month_num_to_month(11), Some(Month::November));
    assert_eq!(month_num_to_month(12), Some(Month::December));
    assert_eq!(month_num_to_month(0), None);
    assert_eq!(month_num_to_month(13), None);
    assert_eq!(month_num_to_month(-3), None);
}

#[test]
fn leap_years_follow_the_civil_rule() {
    assert!(is_leap_year(2024));
    assert!(!is_leap_year(2023));
    assert!(!is_leap_year(1900));
    assert!(is_leap_year(2000));
}

#[test]
fn month_lengths() {
    assert_eq!(days_in_month(2024, 1), 31);
    assert_eq!(days_in_month(2024, 2), 29);
    assert_eq!(days_in_month(2023, 2), 28);
    assert_eq!(days_in_month(2024, 4), 30);
    assert_eq!(days_in_month(2024, 12), 31);
    assert_eq!(days_in_month(2024, 0), 0);
    assert_eq!(days_in_month(2024, 13), 0);
}

#[test]
fn date_renders_zero_padded() {
    assert_eq!(convert_date_to_string(TaskDate { year: 2024, month: 3, day: 5 }), "2024-03-05");
    assert_eq!(convert_date_to_string(TaskDate { year: 987, month: 12, day: 31 }), "0987-12-31");
    assert_eq!(convert_date_to_string(TaskDate { year: 1, month: 1, day: 1 }), "0001-01-01");
    assert_eq!(convert_date_to_string(TaskDate { year: 9999, month: 10, day: 20 }), "9999-10-20");
}

#[test]
fn parse_accepts_unpadded_fields() {
    assert_eq!(parse_date("2024-3-5"), Some(TaskDate { year: 2024, month: 3, day: 5 }));
    assert_eq!(parse_date("2024-03-05"), Some(TaskDate { year: 2024, month: 3, day: 5 }));
    assert_eq!(parse_date("987-12-31"), Some(TaskDate { year: 987, month: 12, day: 31 }));
}

#[test]
fn parse_trims_surrounding_spaces() {
    assert_eq!(parse_date("  2024-12-31\n"), Some(TaskDate { year: 2024, month: 12, day: 31 }));
}

#[test]
fn parse_rejects_malformed_strings() {
    assert_eq!(parse_date(""), None);
    assert_eq!(parse_date("   "), None);
    assert_eq!(parse_date("soon"), None);
    assert_eq!(parse_date("2024-3"), None);
    assert_eq!(parse_date("2024-3-5-6"), None);
    assert_eq!(parse_date("2024--5"), None);
    assert_eq!(parse_date("2024-3-"), None);
    assert_eq!(parse_date("20x4-3-5"), None);
}

#[test]
fn parse_rejects_invalid_calendar_dates() {
    assert_eq!(parse_date("2024-13-1"), None);
    assert_eq!(parse_date("2024-0-1"), None);
    assert_eq!(parse_date("2024-2-30"), None);
    assert_eq!(parse_date("2023-2-29"), None);
    assert_eq!(parse_date("2024-2-29"), Some(TaskDate { year: 2024, month: 2, day: 29 }));
    assert_eq!(parse_date("2024-1-0"), None);
    assert_eq!(parse_date("99999-1-1"), None);
    assert_eq!(parse_date("10000-1-1"), None);
}

#[test]
fn parse_inverts_rendering() {
    let dates = [
        TaskDate { year: 2024, month: 3, day: 5 },
        TaskDate { year: 1, month: 1, day: 1 },
        TaskDate { year: 9999, month: 12, day: 31 },
    ];
    for d in dates {
        assert_eq!(parse_date(&convert_date_to_string(d)), Some(d));
    }
}
