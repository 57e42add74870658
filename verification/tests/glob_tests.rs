use bodhilibrs::glob::{glob, glob_options, glob_pattern, strip_private, GlobEntry, GlobError};

fn found(path: &str, is_dir: bool) -> GlobEntry {
    GlobEntry::Found { path: Some(path.to_string()), is_dir }
}

#[test]
fn pattern_for_recursive_walk() {
    assert_eq!(glob_pattern("/tmp/data", "*.txt", true), "/tmp/data/**/*.txt");
}

#[test]
fn pattern_for_flat_walk() {
    assert_eq!(glob_pattern("/tmp/data", "*.txt", false), "/tmp/data/*.txt");
}

#[test]
fn options_follow_recursion_and_hidden_flags() {
    let o = glob_options(true, true);
    assert!(o.case_sensitive);
    assert!(!o.require_literal_separator);
    assert!(!o.require_literal_leading_dot);
    let o = glob_options(false, false);
    assert!(o.case_sensitive);
    assert!(o.require_literal_separator);
    assert!(o.require_literal_leading_dot);
}

#[test]
fn private_prefix_is_stripped() {
    assert_eq!(strip_private("/private/tmp/x.txt"), "/tmp/x.txt");
    assert_eq!(strip_private("/private/private/x"), "/x");
    assert_eq!(strip_private("/tmp/private/x"), "/tmp/private/x");
    assert_eq!(strip_private("short"), "short");
}

#[test]
fn walk_results_are_filtered_in_order() {
    let entries = vec![
        found("/tmp/a.txt", false),
        GlobEntry::Unreadable,
        found("/tmp/sub", true),
        GlobEntry::Found { path: None, is_dir: false },
        found("/private/tmp/b.txt", false),
    ];
    let paths = glob(Ok(entries)).expect("listing succeeded");
    assert_eq!(paths, vec!["/tmp/a.txt", "/tmp/b.txt"]);
}

#[test]
fn walk_failure_becomes_an_error() {
    let r = glob(Err("pattern not provided".to_string()));
    match r {
        Ok(_) => panic!("expected an error"),
        Err(e) => assert_eq!(e.message(), "pattern not provided"),
    }
}

#[test]
fn error_keeps_its_text() {
    let e = GlobError::new("no such directory".to_string());
    assert_eq!(e.message(), "no such directory");
}
