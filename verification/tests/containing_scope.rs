use kyber::containing_scope::containing_scope;
use kyber::selected_str::SelectedStr;

fn containing_scope_selected(s: &str) -> String {
    let selected = &s.parse::<SelectedStr>().unwrap();
    let scope = containing_scope(selected.as_str(), selected.range());
    let selected = selected.with_range(scope);
    selected.range_str().to_string()
}

#[test]
fn whole_file() {
    assert_eq!(containing_scope_selected("let `foo` = 5;"), "let foo = 5;");
}

#[test]
fn inside_single_brace() {
    assert_eq!(
        containing_scope_selected("{let `foo` = 5;}"),
        "let foo = 5;"
    );
}

#[test]
fn with_brace_before() {
    assert_eq!(
        containing_scope_selected("{{}let `foo` = 5;}"),
        "{}let foo = 5;"
    );
}

#[test]
fn with_brace_after() {
    assert_eq!(
        containing_scope_selected("{let `foo` = 5;{}}"),
        "let foo = 5;{}"
    );
}

#[test]
fn with_outer_brace_before() {
    assert_eq!(
        containing_scope_selected("{}{let `foo` = 5;}"),
        "let foo = 5;"
    );
}

#[test]
fn with_closing_brace_inside() {
    assert_eq!(
        containing_scope_selected("{{let `f}oo` = 5;}"),
        "{let f}oo = 5;"
    );
}

#[test]
fn with_opening_brace_inside() {
    assert_eq!(
        containing_scope_selected("{let `f{oo` = 5;}}"),
        "let f{oo = 5;}"
    );
}
