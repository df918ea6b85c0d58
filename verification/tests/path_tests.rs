use live_files::path::{assert_within, join, relative_text, resolve, split_logical};
use live_files::Error;

#[test]
fn split_valid() {
    assert_eq!(split_logical("ws/notes/todo.md"), Some(("ws", "notes/todo.md")));
}

#[test]
fn split_no_slash() {
    assert_eq!(split_logical("workspace"), None);
}

#[test]
fn resolve_rejects_dotdot() {
    assert!(matches!(resolve("/tmp", "../etc/passwd"), Err(Error::PathTraversal(_))));
}

#[test]
fn resolve_rejects_embedded_dotdot() {
    assert!(matches!(resolve("/tmp", "notes/../../etc/passwd"), Err(Error::PathTraversal(_))));
}

#[test]
fn assert_within_rejects_outside() {
    assert!(matches!(assert_within("/tmp/test", "/etc/passwd"), Err(Error::PathTraversal(_))));
}

#[test]
fn assert_within_accepts_inside() {
    assert!(assert_within("/tmp/test", "/tmp/test/subdir/file.md").is_ok());
}

#[test]
fn assert_within_rejects_sibling() {
    // /tmp/test-evil must not count as inside /tmp/test
    assert!(matches!(assert_within("/tmp/test", "/tmp/test-evil/file.md"), Err(Error::PathTraversal(_))));
}

#[test]
fn split_keeps_later_slashes_in_relative_part() {
    assert_eq!(split_logical("a/b/c"), Some(("a", "b/c")));
    assert_eq!(split_logical("/x"), Some(("", "x")));
    assert_eq!(split_logical("root/"), Some(("root", "")));
}

#[test]
fn resolve_joins_relative_path() {
    assert_eq!(resolve("/tmp", "notes/todo.md").unwrap(), "/tmp/notes/todo.md");
    assert_eq!(resolve("/tmp/", "a.md").unwrap(), "/tmp/a.md");
}

#[test]
fn resolve_error_carries_relative_path() {
    match resolve("/tmp", "a/..b") {
        Err(Error::PathTraversal(p)) => assert_eq!(p, "a/..b"),
        other => panic!("unexpected {:?}", other),
    }
}

#[test]
fn join_follows_pathbuf_rules() {
    assert_eq!(join("/tmp", "/etc/passwd"), "/etc/passwd");
    assert_eq!(join("", "a"), "a");
    assert_eq!(join("/tmp", ""), "/tmp/");
}

#[test]
fn assert_within_compares_components() {
    assert!(assert_within("/tmp/test", "/tmp/test").is_ok());
    assert!(assert_within("/tmp/test/", "/tmp//test/./a").is_ok());
    match assert_within("/tmp/test", "/tmp") {
        Err(Error::PathTraversal(p)) => assert_eq!(p, "/tmp"),
        other => panic!("unexpected {:?}", other),
    }
}

#[test]
fn relative_text_strips_root_and_fixes_backslashes() {
    assert_eq!(relative_text("/r/notes/a.md", "/r"), Some("notes/a.md".to_string()));
    assert_eq!(relative_text("/r/a\\b.md", "/r"), Some("a/b.md".to_string()));
    assert_eq!(relative_text("/other/a.md", "/r"), None);
    assert_eq!(relative_text("/r", "/r"), Some(String::new()));
}

#[test]
fn resolve_rejects_absolute_relative_part() {
    assert!(matches!(resolve("/tmp", "/etc/passwd"), Err(Error::PathTraversal(p)) if p == "/etc/passwd"));
}
