use kyber::replace_range::{Bound, ReplaceRange};

#[test]
fn full_range_replaces_everything() {
    assert_eq!(
        "foo".replace_range((Bound::Unbounded, Bound::Unbounded), |_| String::from("")),
        Some("".to_string())
    );
}

#[test]
fn full_range_calls_with_initial_string() {
    "foo".replace_range((Bound::Unbounded, Bound::Unbounded), |s| {
        assert_eq!(s, "foo");
        String::from("")
    });
}

#[test]
fn range_from_gives_from_range_in_argument() {
    "foo".replace_range((Bound::Included(1), Bound::Unbounded), |s| {
        assert_eq!(s, "oo");
        String::from("")
    });
}

#[test]
fn out_of_range_returns_none() {
    assert_eq!(
        "foo".replace_range((Bound::Included(4), Bound::Unbounded), |_| String::from("")),
        None
    );
}

#[test]
fn range_from_keeps_outside_the_range() {
    assert_eq!(
        "foo".replace_range((Bound::Included(1), Bound::Unbounded), |_| String::from("")),
        Some("f".to_string())
    );
}

#[test]
fn range_to_keeps_outside_the_range() {
    assert_eq!(
        "foo".replace_range((Bound::Unbounded, Bound::Excluded(1)), |_| String::from("")),
        Some("oo".to_string())
    );
    assert_eq!(
        "foo".replace_range((Bound::Unbounded, Bound::Excluded(2)), |_| String::from("")),
        Some("o".to_string())
    );
    assert_eq!(
        "foo".replace_range((Bound::Unbounded, Bound::Excluded(3)), |_| String::from("")),
        Some("".to_string())
    );
}
