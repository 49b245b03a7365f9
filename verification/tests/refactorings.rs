use kyber::file_location::FileLocation;
use kyber::refactoring::{
    extract_function, extract_variable, inline_in_file, inline_variable, inline_variable_at,
    insert_line, rename_in_file, rename_variable, replace_containing_scope, try_inline_in_file,
    try_inline_variable, try_inline_variable_at,
};
use kyber::error::KyberError;

const PROGRAM: &str = "fn main() {\n    let x = 1 + 2;\n    println!(\"{}\", x);\n}\n";

fn loc(line: usize, column: usize) -> FileLocation {
    FileLocation::new(line, column)
}

#[test]
fn insert_line_puts_the_line_in_place() {
    assert_eq!(insert_line("a\nb", 1, "c".to_string()), "a\nc\nb");
    assert_eq!(insert_line("a", 1, "z".to_string()), "a\nz");
    assert_eq!(insert_line("", 0, "first".to_string()), "first\n");
}

#[test]
fn extract_variable_declares_the_expression() {
    let r = extract_variable(PROGRAM, loc(1, 12), loc(1, 16), "y").unwrap();
    assert_eq!(
        r,
        "fn main() {\nlet y = 1 + 2;\n    let x = y;\n    println!(\"{}\", x);\n}\n"
    );
}

#[test]
fn extract_function_declares_the_body() {
    let r = extract_function(PROGRAM, loc(1, 12), loc(1, 16), "f").unwrap();
    assert_eq!(
        r,
        "fn main() {\nfn f() {\n1 + 2\n}\n    let x = f();;\n    println!(\"{}\", x);\n}\n"
    );
}

#[test]
fn extract_reports_a_bad_location() {
    let r = extract_variable(PROGRAM, loc(9, 0), loc(9, 1), "y");
    assert!(matches!(r, Err(KyberError::LineOutOfRange(9))));
}

#[test]
fn rename_variable_stays_in_its_scope() {
    let contents = "let x = 1;\n{\n    let x = 2;\n    x + x\n}\n";
    let r = rename_variable(contents, loc(2, 8), loc(2, 8), "y").unwrap();
    assert_eq!(r, "let x = 1;\n{\n    let y = 2;\n    y + y\n}\n");
}

#[test]
fn rename_in_file_renames_everywhere() {
    let contents = "let x = 1;\n{\n    let x = 2;\n    x + x\n}\n";
    let r = rename_in_file(contents, loc(2, 8), loc(2, 8), "y").unwrap();
    assert_eq!(r, "let y = 1;\n{\n    let y = 2;\n    y + y\n}\n");
}

#[test]
fn replace_containing_scope_hands_over_the_scope() {
    let r = replace_containing_scope("x{ab}y", loc(0, 2)..=loc(0, 3), |s| s.to_uppercase());
    assert_eq!(r.unwrap(), "x{AB}y");
    let r = replace_containing_scope("x{ab}y", loc(3, 0)..=loc(3, 0), |s| s.to_uppercase());
    assert!(matches!(r, Err(KyberError::LineOutOfRange(3))));
}

#[test]
fn inline_variable_at_substitutes_the_expression() {
    let contents = "{\n    let a = 5;\n    a * 2\n}";
    let r = inline_variable_at(contents, loc(1, 8), loc(1, 8)).unwrap();
    assert_eq!(r, "{\n    \n    5 * 2\n}");
    assert_eq!(try_inline_variable_at(contents, loc(1, 8), loc(1, 8)).unwrap().unwrap(), r);
}

#[test]
fn try_inline_variable_at_without_declaration() {
    let contents = "let c = 1;\n{\nc\n}";
    assert!(try_inline_variable_at(contents, loc(2, 0), loc(2, 0)).is_none());
}

#[test]
fn inline_variable_parenthesizes_whole_words() {
    let contents = "{\n    let a = 5;\n    a * 2\n}";
    assert_eq!(inline_variable(contents, 10, 10).unwrap(), "{\n    \n    (5) * 2\n}");
    let contents = "{\nlet a = 2;\nlet ab = a;\nab\n}";
    assert_eq!(inline_variable(contents, 6, 6).unwrap(), "{\n\nlet ab = (2);\nab\n}");
}

#[test]
fn try_inline_variable_finds_the_declaration_or_not() {
    let contents = "{\n    let a = 5;\n    a * 2\n}";
    assert_eq!(try_inline_variable(contents, 10, 10).unwrap().unwrap(), "{\n    \n    (5) * 2\n}");
    let contents = "let c = 1;\n{\nc\n}";
    assert!(try_inline_variable(contents, 13, 13).is_none());
}

#[test]
fn inline_variable_reports_a_pattern_that_does_not_compile() {
    let contents = "{ let ( = 1; ( }";
    let r = inline_variable(contents, 6, 6);
    assert!(matches!(r, Err(KyberError::Regex(_))));
}

#[test]
fn inline_in_file_substitutes_everywhere() {
    let contents = "let x = 4;\nprintln!(\"{}\", x);\n";
    let r = inline_in_file(contents, loc(0, 4), loc(0, 4)).unwrap();
    assert_eq!(r, "\nprintln!(\"{}\", 4);\n");
    assert_eq!(try_inline_in_file(contents, loc(0, 4), loc(0, 4)).unwrap().unwrap(), r);
    assert!(try_inline_in_file("x + 1\n", loc(0, 0), loc(0, 0)).is_none());
}
