use kyber::containing_scope::containing_scope;
use kyber::file_location::FileLocation;
use kyber::number::{format_usize, parse_usize};
use kyber::plugin_action::PluginAction;
use kyber::refactoring::rename_variable;
use kyber::replace_range::{Bound, ReplaceRange};
use kyber::support::LineCol;
use kyber::text::{join_with, replace_all, split_by_char};
use std::str::FromStr;

#[test]
fn line_col_reads_back_its_text() {
    let lc = LineCol::from_str("12:34").unwrap();
    assert_eq!(lc.to_string(), "12:34");
    let again = LineCol::from_str(&lc.to_string()).unwrap();
    assert_eq!(again.to_string(), "12:34");
    let zero = LineCol::from_str("0:0").unwrap();
    assert_eq!(zero.to_string(), "0:0");
}

#[test]
fn plugin_action_reads_back_its_text() {
    let a = PluginAction::parse("rust-refactoring".to_string(), "rename".to_string()).unwrap();
    assert_eq!(a.to_string(), "rust-refactoring/rename");
    assert_eq!(PluginAction::from_str(&a.to_string()).unwrap(), a);
}

#[test]
fn decimal_text_reads_back() {
    for n in [0usize, 7, 10, 1234567890, usize::MAX] {
        let s = format_usize(n);
        assert_eq!(s, n.to_string());
        assert_eq!(parse_usize(&s), Ok(n));
    }
}

#[test]
fn joining_the_pieces_gives_the_text() {
    for text in ["", ":", "a:b::c", "no separator", "::x::"] {
        let pieces = split_by_char(text, ':');
        assert_eq!(join_with(&pieces, ':'), text);
        for p in &pieces {
            assert!(!p.contains(':'));
        }
    }
}

#[test]
fn replacing_a_text_by_itself_changes_nothing() {
    for (text, from) in [("foo bar foo", "foo"), ("aaaa", "aa"), ("abc", ""), ("", "x")] {
        assert_eq!(replace_all(text, from, from), text);
    }
}

#[test]
fn replacing_a_range_by_its_own_text_changes_nothing() {
    let r = "foo".replace_range((Bound::Included(1), Bound::Excluded(2)), |s| s.to_string());
    assert_eq!(r, Some("foo".to_string()));
    let r = "foo".replace_range((Bound::Excluded(0), Bound::Included(2)), |s| s.to_string());
    assert_eq!(r, Some("foo".to_string()));
    let r = String::from("héllo").replace_range((Bound::Unbounded, Bound::Unbounded), |s| s.to_string());
    assert_eq!(r, Some("héllo".to_string()));
}

#[test]
fn renaming_to_the_same_name_changes_nothing() {
    let contents = "let x = 1;\n{\n    let x = 2;\n    x + x\n}\n";
    let r = rename_variable(contents, FileLocation::new(2, 8), FileLocation::new(2, 8), "x");
    assert_eq!(r.unwrap(), contents);
}

#[test]
fn scope_contains_the_selection() {
    let s = "fn f() { if a { let b = 1; } }";
    for (lo, hi) in [(0usize, 2usize), (16, 19), (9, 13), (29, 30)] {
        let scope = containing_scope(s, lo..hi);
        assert!(scope.start <= lo && hi <= scope.end && scope.end <= s.len());
    }
}

#[test]
fn splitting_a_join_gives_the_pieces() {
    let pieces = vec!["a".to_string(), "".to_string(), "bc".to_string()];
    assert_eq!(split_by_char(&join_with(&pieces, ':'), ':'), pieces);
}

#[test]
fn inserted_line_is_found_at_its_place() {
    let text = "first\nsecond\nthird";
    let out = kyber::refactoring::insert_line(text, 2, "new".to_string());
    assert_eq!(split_by_char(&out, '\n'), vec!["first", "second", "new", "third"]);
}

#[test]
fn one_based_location_text_reads_back() {
    for (line, column) in [(0usize, 0usize), (2, 6), (99, 1)] {
        let loc = FileLocation::parse_1_indexed(&format_usize(line + 1), &format_usize(column + 1));
        assert_eq!(loc.unwrap(), FileLocation::new(line, column));
    }
}
