use kyber::error::KyberError;
use kyber::number::IntErrorKind;
use kyber::plugin::{actions_from_names, is_plugin_exe, plugin_name_of_exe, Plugin};
use kyber::plugin_action::PluginAction;
use kyber::support::LineCol;
use std::str::FromStr;

struct Fixed;

impl Plugin for Fixed {
    fn action_names(&self, _filename: &str, _line_col: &LineCol) -> Vec<String> {
        vec!["x".to_string(), "bad name".to_string(), "".to_string(), "y".to_string()]
    }

    fn plugin_name(&self) -> String {
        "demo".to_string()
    }
}

#[test]
fn actions_keep_the_valid_names_in_order() {
    let names = vec!["a".to_string(), "two words".to_string(), "".to_string(), "b".to_string()];
    let actions = actions_from_names("p", &names);
    let texts: Vec<String> = actions.iter().map(|a| a.to_string()).collect();
    assert_eq!(texts, vec!["p/a", "p/b"]);
}

#[test]
fn plugin_actions_name_the_plugin() {
    let lc = LineCol::from_str("1:1").unwrap();
    let texts: Vec<String> = Fixed.actions("file.rs", &lc).iter().map(|a| a.to_string()).collect();
    assert_eq!(texts, vec!["demo/x", "demo/y"]);
}

#[test]
fn plugin_executables_are_recognised_by_name() {
    assert!(is_plugin_exe("kyber-plugin-rust"));
    assert!(is_plugin_exe("kyber-plugin-"));
    assert!(!is_plugin_exe("kyber-rust"));
    assert!(!is_plugin_exe("my-kyber-plugin-rust"));
}

#[test]
fn plugin_action_errors() {
    assert!(matches!(
        PluginAction::from_str("foo"),
        Err(KyberError::InvalidPluginAction(s)) if s == "foo"
    ));
    assert!(matches!(
        PluginAction::parse("foo".to_string(), "a\tb".to_string()),
        Err(KyberError::InvalidAction(s)) if s == "a\tb"
    ));
    assert!(matches!(
        PluginAction::parse("foo".to_string(), "".to_string()),
        Err(KyberError::InvalidAction(s)) if s.is_empty()
    ));
}

#[test]
fn plugin_action_parse_accepts_other_characters() {
    let a = PluginAction::parse("p".to_string(), "make_constant".to_string()).unwrap();
    assert_eq!(a.to_string(), "p/make_constant");
    assert!(PluginAction::parse("p".to_string(), "no\u{3000}break".to_string()).is_err());
    assert!(PluginAction::parse("p".to_string(), "bell\u{7}".to_string()).is_err());
}

#[test]
fn line_col_errors() {
    assert!(matches!(LineCol::from_str("1"), Err(KyberError::InvalidLineCol(s)) if s == "1"));
    assert!(matches!(LineCol::from_str("1:2:3"), Err(KyberError::InvalidLineCol(s)) if s == "1:2:3"));
    assert!(matches!(
        LineCol::from_str("a:2"),
        Err(KyberError::ParseInt(IntErrorKind::InvalidDigit))
    ));
    assert!(matches!(LineCol::from_str("1:"), Err(KyberError::ParseInt(IntErrorKind::Empty))));
}

#[test]
fn plugin_names_drop_the_executable_prefix() {
    assert_eq!(plugin_name_of_exe("kyber-plugin-rust-refactoring"), "rust-refactoring");
    assert_eq!(plugin_name_of_exe("kyber-plugin-"), "");
    assert_eq!(plugin_name_of_exe("other"), "other");
}
