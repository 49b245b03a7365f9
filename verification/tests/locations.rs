use kyber::error::KyberError;
use kyber::file_location::{can_get, get, parse_range, try_parse_range, FileLocation};
use kyber::number::IntErrorKind;

const TEXT: &str = "foo\nbar\nbaz";

#[test]
fn index_counts_bytes_from_the_line_start() {
    assert_eq!(FileLocation::new(0, 0).index(TEXT).unwrap(), 0);
    assert_eq!(FileLocation::new(1, 2).index(TEXT).unwrap(), 6);
    assert_eq!(FileLocation::new(2, 2).index(TEXT).unwrap(), 10);
}

#[test]
fn index_reports_a_missing_line() {
    let r = FileLocation::new(4, 0).index(TEXT);
    assert!(matches!(r, Err(KyberError::LineOutOfRange(4))));
}

#[test]
fn index_reports_a_column_past_its_line() {
    let r = FileLocation::new(0, 4).index(TEXT);
    assert!(matches!(r, Err(KyberError::ColumnOutOfRange { column: 4, line: 0 })));
}

#[test]
fn index_reports_a_location_past_the_text() {
    let r = FileLocation::new(2, 4).index(TEXT);
    assert!(matches!(r, Err(KyberError::LocationOutOfFile { line: 2, column: 4 })));
}

#[test]
fn from_pair_takes_line_then_column() {
    let loc: FileLocation = (3, 9).into();
    assert_eq!(loc, FileLocation { line: 3, column: 9 });
}

#[test]
fn get_on_multibyte_text() {
    let text = "héllo\nwörld";
    let r = get(text, FileLocation::new(1, 0)..=FileLocation::new(1, 2));
    assert_eq!(r.unwrap(), "wö");
}

#[test]
fn parse_1_indexed_counts_from_one() {
    assert_eq!(FileLocation::parse_1_indexed("3", "7").unwrap(), FileLocation::new(2, 6));
    assert_eq!(FileLocation::parse_1_indexed("1", "1").unwrap(), FileLocation::new(0, 0));
}

#[test]
fn parse_1_indexed_reports_a_bad_number() {
    let r = FileLocation::parse_1_indexed("x", "1");
    assert!(matches!(r, Err(KyberError::ParseInt(IntErrorKind::InvalidDigit))));
    let r = FileLocation::parse_1_indexed("1", "");
    assert!(matches!(r, Err(KyberError::ParseInt(IntErrorKind::Empty))));
}

#[test]
fn parse_range_reads_two_locations() {
    let (start, end) = parse_range("3,7:4,2").unwrap();
    assert_eq!(start, FileLocation::new(2, 6));
    assert_eq!(end, FileLocation::new(3, 1));
}

#[test]
fn parse_range_finds_the_range_inside_other_text() {
    let (start, end) = parse_range("range 10,1:12,30 here").unwrap();
    assert_eq!(start, FileLocation::new(9, 0));
    assert_eq!(end, FileLocation::new(11, 29));
}

#[test]
fn parse_range_reports_an_overflowing_number() {
    let r = parse_range("1,1:99999999999999999999999,1");
    assert!(matches!(r, Err(KyberError::ParseInt(IntErrorKind::PosOverflow))));
}

#[test]
fn try_parse_range_refuses_what_would_panic() {
    assert!(try_parse_range("no range here").is_none());
    assert!(try_parse_range("0,1:1,1").is_none());
    assert!(try_parse_range("1,0:1,1").is_none());
    assert!(try_parse_range("1,1:0,1").is_none());
    let r = try_parse_range("3,7:4,2").unwrap().unwrap();
    assert_eq!(r, (FileLocation::new(2, 6), FileLocation::new(3, 1)));
}

#[test]
fn can_get_tells_where_get_would_panic() {
    assert!(can_get(TEXT, FileLocation::new(0, 0), FileLocation::new(0, 2)));
    assert!(can_get(TEXT, FileLocation::new(9, 0), FileLocation::new(0, 2)));
    assert!(can_get(TEXT, FileLocation::new(0, 1), FileLocation::new(0, 0)));
    assert!(!can_get(TEXT, FileLocation::new(0, 2), FileLocation::new(0, 0)));
    assert!(!can_get("héllo", FileLocation::new(0, 2), FileLocation::new(0, 3)));
    assert!(!can_get("héllo", FileLocation::new(0, 0), FileLocation::new(0, 1)));
    assert!(can_get("héllo", FileLocation::new(0, 0), FileLocation::new(0, 2)));
}
