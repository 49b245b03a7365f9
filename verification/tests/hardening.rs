use kyber::hardening::{is_excluded_entry, is_rust_source, let_bindings, try_let_bindings};

#[test]
fn let_bindings_gives_the_name_offsets() {
    let contents = "let x = 1;\nlet yy = 2;";
    assert_eq!(let_bindings(contents), vec![(4, 4), (15, 16)]);
    assert_eq!(try_let_bindings(contents), Some(vec![(4, 4), (15, 16)]));
    assert_eq!(let_bindings("no bindings"), Vec::<(usize, usize)>::new());
}

#[test]
fn excluded_entries_hold_git_or_target() {
    assert!(is_excluded_entry(".git"));
    assert!(is_excluded_entry("target"));
    assert!(is_excluded_entry("my_target_dir"));
    assert!(!is_excluded_entry("src"));
}

#[test]
fn rust_sources_end_in_rs() {
    assert!(is_rust_source("main.rs"));
    assert!(is_rust_source(".rs"));
    assert!(!is_rust_source("main.rsx"));
    assert!(!is_rust_source("Cargo.toml"));
}
