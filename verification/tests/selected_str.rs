use kyber::replace_range::Bound;
use kyber::selected_str::SelectedStr;

#[test]
fn errors_with_no_range() {
    let parse = "something".parse::<SelectedStr>();
    assert!(parse.is_err());
}

#[test]
fn starts_at_range() {
    let parse = "`s`omething".parse::<SelectedStr>().unwrap();
    assert_eq!(parse.range_str(), "s");
}

#[test]
fn errors_with_one_tick() {
    let parse = "`something".parse::<SelectedStr>();
    assert!(parse.is_err());
}

#[test]
fn errors_with_three_ticks() {
    let parse = "`s`o`mething".parse::<SelectedStr>();
    assert!(parse.is_err());
}

#[test]
fn includes_empty_range() {
    let parse = "``something".parse::<SelectedStr>().unwrap();
    assert_eq!(parse.range_str(), "");
}

#[test]
fn includes_range_in_middle_of_word() {
    let parse = "som`eth`ing".parse::<SelectedStr>().unwrap();
    assert_eq!(parse.range_str(), "eth");
}

#[test]
fn removes_ticks_from_string() {
    let parse = "som`eth`ing".parse::<SelectedStr>().unwrap();
    assert_eq!(parse.as_str(), "something");
}

#[test]
fn from_range_bounds() {
    let selected_str = SelectedStr::new("foo", (Bound::Included(0), Bound::Excluded(1)));
    assert_eq!(selected_str.range_str(), "f");
}

#[test]
fn from_inclusive_range() {
    let selected_str = SelectedStr::new("foo", (Bound::Included(0), Bound::Included(1)));
    assert_eq!(selected_str.range_str(), "fo");
}

#[test]
fn unbounded_start() {
    let selected_str = SelectedStr::new("foo", (Bound::Unbounded, Bound::Excluded(1)));
    assert_eq!(selected_str.range_str(), "f");
}

#[test]
fn unbounded_end() {
    let selected_str = SelectedStr::new("foo", (Bound::Unbounded, Bound::Unbounded));
    assert_eq!(selected_str.range_str(), "foo");
}

#[test]
fn excluded_start() {
    let selected_str = SelectedStr::new("foo", (Bound::Excluded(0), Bound::Unbounded));
    assert_eq!(selected_str.range_str(), "oo");
}
