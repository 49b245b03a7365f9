use kyber::text::{contains, ends_with, join_with, replace_all, split_by_char, starts_with};

#[test]
fn split_gives_the_pieces_between_separators() {
    assert_eq!(split_by_char("a:b::c", ':'), vec!["a", "b", "", "c"]);
    assert_eq!(split_by_char("", ':'), vec![""]);
    assert_eq!(split_by_char("x\ny\n", '\n'), vec!["x", "y", ""]);
}

#[test]
fn join_puts_the_separator_between_pieces() {
    let pieces = vec!["a".to_string(), "".to_string(), "b".to_string()];
    assert_eq!(join_with(&pieces, '/'), "a//b");
    assert_eq!(join_with(&Vec::new(), '/'), "");
}

#[test]
fn replace_all_agrees_with_str_replace() {
    let cases = [
        ("foo bar foo", "foo", "baz"),
        ("aaa", "aa", "b"),
        ("abc", "", "-"),
        ("", "", "-"),
        ("héllo wörld", "ö", "o"),
        ("nothing here", "xyz", "q"),
    ];
    for (text, from, to) in cases {
        assert_eq!(replace_all(text, from, to), text.replace(from, to));
    }
}

#[test]
fn prefix_suffix_and_substring_tests() {
    assert!(starts_with("kyber-plugin-x", "kyber-plugin-"));
    assert!(!starts_with("kyber", "kyber-plugin-"));
    assert!(ends_with("main.rs", ".rs"));
    assert!(!ends_with("rs", ".rs"));
    assert!(contains("my.git.dir", ".git"));
    assert!(contains("abc", ""));
    assert!(!contains("abc", "abcd"));
}
