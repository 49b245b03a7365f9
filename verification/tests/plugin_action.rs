use kyber::plugin_action::PluginAction;
use std::str::FromStr;

fn plugin_action(p: &str, a: &str) -> String {
    format!("{}/{}", p, a)
}

#[test]
fn action_from_str() {
    assert_eq!(
        PluginAction::from_str("foo/bar").unwrap().to_string(),
        plugin_action("foo", "bar")
    );
    assert_eq!(
        PluginAction::from_str("foo-bar/baz").unwrap().to_string(),
        plugin_action("foo-bar", "baz")
    );
    assert_eq!(
        PluginAction::from_str("foo/baz-qux").unwrap().to_string(),
        plugin_action("foo", "baz-qux")
    );
    assert!(PluginAction::from_str("foo/bar/baz").is_err());
    assert!(PluginAction::from_str("foo").is_err());
}

#[test]
fn plugin_action_parse() {
    assert_eq!(
        PluginAction::parse("foo".to_string(), "bar".to_string()).unwrap().to_string(),
        plugin_action("foo", "bar")
    );
    assert!(PluginAction::parse("foo".to_string(), "".to_string()).is_err());
    assert!(PluginAction::parse("foo".to_string(), "two words".to_string()).is_err());
    assert!(PluginAction::parse("foo".to_string(), "\u{009c}".to_string()).is_err());
}
