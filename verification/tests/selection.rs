use kyber::containing_scope::containing_scope;
use kyber::replace_range::Bound;
use kyber::selected_str::SelectedStr;

#[test]
fn with_range_keeps_the_text() {
    let s = SelectedStr::new("hello world", (Bound::Included(0), Bound::Excluded(5)));
    assert_eq!(s.range(), 0..5);
    assert_eq!(s.range_str(), "hello");
    let t = s.with_range(6..11);
    assert_eq!(t.as_str(), "hello world");
    assert_eq!(t.range_str(), "world");
}

#[test]
fn new_with_excluded_end_and_included_start() {
    let s = SelectedStr::new("abcdef", (Bound::Included(2), Bound::Included(3)));
    assert_eq!(s.range(), 2..4);
    assert_eq!(s.range_str(), "cd");
}

#[test]
fn containing_scope_exact_values() {
    assert_eq!(containing_scope("{a}", 1..2), 1..2);
    assert_eq!(containing_scope("abc", 1..2), 0..3);
    assert_eq!(containing_scope("{x{y}z}", 1..2), 1..6);
    assert_eq!(containing_scope("{x{y}z}", 3..4), 3..4);
    assert_eq!(containing_scope("}{a", 2..3), 2..3);
}

#[test]
fn containing_scope_counts_braces_in_the_selection() {
    assert_eq!(containing_scope("{{let f}oo = 5;}", 6..10), 1..15);
    assert_eq!(containing_scope("{let f{oo = 5;}}", 5..9), 1..15);
    assert_eq!(containing_scope("{a{b}c}", 2..5), 1..6);
    assert_eq!(containing_scope("x}{y", 1..3), 0..4);
    assert_eq!(containing_scope("{ab}", 3..1), 1..3);
}

#[test]
fn matching_braces_steps_find_the_unmatched_target() {
    let bytes = b"a{b}}c";
    let mut depth = 0usize;
    let mut found = None;
    let mut depths = Vec::new();
    for (k, &c) in bytes.iter().enumerate() {
        depths.push(depth);
        let (hit, next) = kyber::containing_scope::matching_braces(b'}', b'{', c, depth);
        if hit && found.is_none() {
            found = Some(k);
        }
        depth = next;
    }
    assert_eq!(found, Some(4));
    assert_eq!(depths, vec![0, 0, 1, 1, 0, 0]);
}
