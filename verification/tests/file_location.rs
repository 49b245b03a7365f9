use kyber::error::KyberError;
use kyber::file_location::get;
use std::ops::RangeInclusive;

const TEXT: &'static str = "foo\nbar\nbaz";

fn test_extract(range: RangeInclusive<(usize, usize)>) -> Result<&'static str, KyberError> {
    get(TEXT, (*range.start()).into()..=(*range.end()).into())
}

#[test]
fn first_line() {
    assert_eq!(test_extract((0, 0)..=(0, 0)).unwrap(), "f");
    assert_eq!(test_extract((0, 0)..=(0, 2)).unwrap(), "foo");
}

#[test]
fn multi_line_start_of_line() {
    assert_eq!(test_extract((0, 0)..=(1, 0)).unwrap(), "foo\nb");
}

#[test]
fn second_line_start_of_line() {
    assert_eq!(test_extract((1, 0)..=(2, 0)).unwrap(), "bar\nb");
}

#[test]
fn second_line_sub_word() {
    assert_eq!(test_extract((1, 0)..=(1, 2)).unwrap(), "bar");
}

#[test]
fn cross_lines_and_words() {
    assert_eq!(test_extract((0, 1)..=(1, 1)).unwrap(), "oo\nba");
}

#[test]
fn line_out_of_range() {
    assert!(test_extract((4, 0)..=(4, 0)).is_err());
}

#[test]
fn col_out_of_range() {
    assert!(test_extract((0, 0)..=(0, 4)).is_err());
}

#[test]
fn last_line_col_out_of_range() {
    assert!(test_extract((2, 0)..=(2, 4)).is_err());
}
