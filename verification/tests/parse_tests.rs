use chart_dedup::parse::parse_path;
use chart_dedup::{Date, Error, FoundFile};

fn parsed(path: &str) -> FoundFile {
    match parse_path(path) {
        Ok(Some(f)) => f,
        other => panic!("expected a parsed file for {path}, got {other:?}"),
    }
}

fn format_error(path: &str) -> Error {
    match parse_path(path) {
        Err(e) => e,
        other => panic!("expected a fatal error for {path}, got {other:?}"),
    }
}

#[test]
fn simple_filename_parses() {
    let f = parsed("A_20230101_1200_TIF");
    assert_eq!(f.path, "A");
    assert_eq!(f.date, Date { year: 2023, month: 1, day: 1 });
    assert_eq!(f.full_path, "A_20230101_1200_TIF");
}

#[test]
fn filename_under_directory_parses() {
    let f = parsed("root/B_20230215_0900_TIF");
    assert_eq!(f.path, "B");
    assert_eq!(f.date, Date { year: 2023, month: 2, day: 15 });
    assert_eq!(f.full_path, "root/B_20230215_0900_TIF");
}

#[test]
fn group_key_joins_leading_fields() {
    let f = parsed("X_Y_Z_20230101_1200_TIF");
    assert_eq!(f.path, "X_Y_Z");
    let g = parsed("tiles/X_Y_20231231_2359_PNG");
    assert_eq!(g.path, "X_Y");
}

#[test]
fn group_key_empty_for_three_fields() {
    let f = parsed("20230101_1200_TIF");
    assert_eq!(f.path, "");
    assert_eq!(f.date, Date { year: 2023, month: 1, day: 1 });
}

#[test]
fn date_fields_read_back_exactly() {
    let f = parsed("B_20231130_0000_TIF");
    assert_eq!(f.date.year, 2023);
    assert_eq!(f.date.month, 11);
    assert_eq!(f.date.day, 30);
}

#[test]
fn underscore_in_directory_keeps_filename_key() {
    // the group key comes from the filename alone
    let f = parsed("a_b/C_20230101_1200_TIF");
    assert_eq!(f.path, "C");
    assert_eq!(f.date, Date { year: 2023, month: 1, day: 1 });
}

#[test]
fn underscore_in_directory_can_shift_date_token() {
    // the date token comes from the whole path string, so underscores in
    // the directory shift which field is taken as the date
    let e = format_error("d_e_f/G_H_I_J");
    assert!(matches!(e, Error::FormatError(_)));
}

#[test]
fn one_field_is_skipped() {
    assert!(matches!(parse_path("plainname"), Ok(None)));
}

#[test]
fn two_fields_are_skipped() {
    assert!(matches!(parse_path("A_20230101"), Ok(None)));
}

#[test]
fn skip_looks_at_filename_not_path() {
    // the directory holds underscores but the filename holds none
    assert!(matches!(parse_path("a_b_c/d"), Ok(None)));
}

#[test]
fn separated_date_is_a_format_error() {
    let e = format_error("A_2023-99-99_1200_TIF");
    assert!(matches!(e, Error::FormatError(_)));
}

#[test]
fn month_thirteen_is_a_format_error() {
    let e = format_error("A_20231301_1200_TIF");
    assert!(matches!(e, Error::FormatError(_)));
}

#[test]
fn month_zero_is_a_format_error() {
    let e = format_error("A_20230001_1200_TIF");
    assert!(matches!(e, Error::FormatError(_)));
}

#[test]
fn day_zero_is_a_format_error() {
    let e = format_error("A_20230100_1200_TIF");
    assert!(matches!(e, Error::FormatError(_)));
}

#[test]
fn day_past_month_end_is_a_format_error() {
    let e = format_error("A_20230431_1200_TIF");
    assert!(matches!(e, Error::FormatError(_)));
}

#[test]
fn february_twenty_ninth_needs_a_leap_year() {
    let f = parsed("A_20240229_1200_TIF");
    assert_eq!(f.date, Date { year: 2024, month: 2, day: 29 });
    let e = format_error("A_20230229_1200_TIF");
    assert!(matches!(e, Error::FormatError(_)));
}

#[test]
fn century_years_follow_gregorian_leap_rule() {
    assert!(matches!(parse_path("A_20000229_1200_TIF"), Ok(Some(_))));
    let e = format_error("A_19000229_1200_TIF");
    assert!(matches!(e, Error::FormatError(_)));
}

#[test]
fn short_date_token_is_a_format_error() {
    let e = format_error("A_2023365_1200_TIF");
    assert!(matches!(e, Error::FormatError(_)));
}

#[test]
fn error_variants_carry_text() {
    let io = Error::IOError(String::from("disk gone"));
    assert!(matches!(io, Error::IOError(_)));
    let fmt = format_error("A_abcdefgh_1200_TIF");
    assert!(matches!(fmt, Error::FormatError(_)));
}

#[test]
fn date_ordering_is_chronological() {
    let a = Date { year: 2023, month: 1, day: 31 };
    let b = Date { year: 2023, month: 2, day: 1 };
    let c = Date { year: 2024, month: 1, day: 1 };
    assert!(a.is_before(&b));
    assert!(b.is_before(&c));
    assert!(a.is_before(&c));
    assert!(!b.is_before(&a));
    assert!(!a.is_before(&a));
}
