use kyber::number::{format_usize, parse_usize, IntErrorKind};

fn std_kind(s: &str) -> Result<usize, IntErrorKind> {
    match s.parse::<usize>() {
        Ok(v) => Ok(v),
        Err(e) => Err(match e.kind() {
            std::num::IntErrorKind::Empty => IntErrorKind::Empty,
            std::num::IntErrorKind::InvalidDigit => IntErrorKind::InvalidDigit,
            std::num::IntErrorKind::PosOverflow => IntErrorKind::PosOverflow,
            other => panic!("unexpected kind {:?}", other),
        }),
    }
}

#[test]
fn parse_usize_reads_decimal_numbers() {
    assert_eq!(parse_usize("0"), Ok(0));
    assert_eq!(parse_usize("42"), Ok(42));
    assert_eq!(parse_usize("+5"), Ok(5));
    assert_eq!(parse_usize("007"), Ok(7));
}

#[test]
fn parse_usize_reports_each_error_kind() {
    assert_eq!(parse_usize(""), Err(IntErrorKind::Empty));
    assert_eq!(parse_usize("+"), Err(IntErrorKind::InvalidDigit));
    assert_eq!(parse_usize("12x"), Err(IntErrorKind::InvalidDigit));
    assert_eq!(parse_usize("-1"), Err(IntErrorKind::InvalidDigit));
    assert_eq!(parse_usize("99999999999999999999999"), Err(IntErrorKind::PosOverflow));
}

#[test]
fn parse_usize_agrees_with_std() {
    let max = usize::MAX.to_string();
    let over = format!("{}0", max);
    let cases = [
        "", "+", "-", "0", "+0", "12", "1 2", " 1", "٣", "99999999999999999999x",
        "x99999999999999999999", max.as_str(), over.as_str(), "++1",
    ];
    for s in cases {
        assert_eq!(parse_usize(s), std_kind(s), "input {:?}", s);
    }
}

#[test]
fn format_usize_writes_decimal() {
    assert_eq!(format_usize(0), "0");
    assert_eq!(format_usize(905), "905");
    assert_eq!(format_usize(usize::MAX), usize::MAX.to_string());
}
