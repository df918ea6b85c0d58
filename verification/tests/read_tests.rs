use live_files::config::{Config, Root};
use live_files::read::{decimal_text, etag_for, read, FileContent, FileMeta};
use live_files::Error;

const ROOT_DIR: &str = "/srv/data";

fn config() -> Config {
    Config {
        roots: vec![Root { name: "test".into(), path: ROOT_DIR.into(), read_only: true, expose: vec![] }],
        ..Config::default()
    }
}

/// Runs a read against a file system with the given files (canonical path →
/// text), where every listed path canonicalizes to itself.
fn read_with(config: &Config, logical: &str, files: &[(&str, &str)]) -> Result<FileContent, Error> {
    let start = read(config, logical)?;
    let root_path = config.roots[start.root_index()].path.clone();
    let resolved = start.with_root(Ok(root_path))?;
    let target = resolved.target_path().to_string();
    let found = files.iter().find(|(p, _)| *p == target);
    let checked = resolved.with_target(config, found.map(|(p, _)| p.to_string()))?;
    let text = found.map(|(_, t)| t.to_string()).unwrap();
    let meta = FileMeta { is_file: true, size: text.len() as u64, modified_at: Some(1_500_000_000_000_000_000) };
    let sized = checked.with_meta(config, Some(meta))?;
    sized.with_text(Ok(text))
}

fn files() -> Vec<(&'static str, &'static str)> {
    vec![
        ("/srv/data/readme.md", "# Hello"),
        ("/srv/data/notes/todo.md", "- Task 1"),
        ("/srv/data/secret.txt", "secret"),
    ]
}

#[test]
fn read_valid_file() {
    let content = read_with(&config(), "test/readme.md", &files()).unwrap();
    assert_eq!(content.content, "# Hello");
    assert_eq!(content.path, "test/readme.md");
}

#[test]
fn read_nested_file() {
    let content = read_with(&config(), "test/notes/todo.md", &files()).unwrap();
    assert_eq!(content.content, "- Task 1");
}

#[test]
fn read_rejects_dotdot() {
    // the "../etc/passwd" form of traversal
    assert!(matches!(read(&config(), "test/../etc/passwd"), Err(Error::PathTraversal(_))));
}

#[test]
fn read_rejects_embedded_dotdot() {
    assert!(matches!(read(&config(), "test/notes/../../etc/passwd"), Err(Error::PathTraversal(_))));
}

#[test]
fn read_unknown_root() {
    assert!(matches!(read(&config(), "nonexistent/file.md"), Err(Error::RootNotFound(_))));
}

#[test]
fn read_nonexistent_file() {
    assert!(matches!(read_with(&config(), "test/ghost.md", &files()), Err(Error::NotFound(_))));
}

#[test]
fn read_enforces_size_limit() {
    let config = Config {
        roots: vec![Root { name: "r".into(), path: ROOT_DIR.into(), read_only: true, expose: vec![] }],
        max_file_bytes: 10,
        ..Config::default()
    };
    let big = "x".repeat(100);
    let files = vec![("/srv/data/big.md", big.as_str())];
    assert!(matches!(read_with(&config, "r/big.md", &files), Err(Error::TooLarge { .. })));
}

#[test]
fn read_hides_invisible_files() {
    // secret.txt exists but is not a Markdown file
    assert!(matches!(read_with(&config(), "test/secret.txt", &files()), Err(Error::NotVisible(_))));
}

#[test]
fn read_without_slash_is_not_found() {
    match read(&config(), "test") {
        Err(Error::NotFound(p)) => assert_eq!(p, "test"),
        Err(e) => panic!("unexpected {:?}", e),
        Ok(_) => panic!("unexpected success"),
    }
}

#[test]
fn read_rejects_symlink_escape() {
    let start = read(&config(), "test/link.md").unwrap();
    let resolved = start.with_root(Ok(ROOT_DIR.to_string())).unwrap();
    assert_eq!(resolved.target_path(), "/srv/data/link.md");
    // the link resolves outside the root
    match resolved.with_target(&config(), Some("/etc/passwd.md".to_string())) {
        Err(Error::PathTraversal(p)) => assert_eq!(p, "/etc/passwd.md"),
        Err(e) => panic!("unexpected {:?}", e),
        Ok(_) => panic!("unexpected success"),
    }
}

#[test]
fn read_reports_io_errors() {
    let start = read(&config(), "test/readme.md").unwrap();
    match start.with_root(Err("permission denied".to_string())) {
        Err(Error::Io(m)) => assert_eq!(m, "permission denied"),
        Err(e) => panic!("unexpected {:?}", e),
        Ok(_) => panic!("unexpected success"),
    }
}

#[test]
fn read_refuses_directories() {
    let cfg = config();
    let start = read(&cfg, "test/notes.md").unwrap();
    let resolved = start.with_root(Ok(ROOT_DIR.to_string())).unwrap();
    let checked = resolved.with_target(&cfg, Some("/srv/data/notes.md".to_string())).unwrap();
    let meta = FileMeta { is_file: false, size: 0, modified_at: None };
    assert!(matches!(checked.with_meta(&cfg, Some(meta)), Err(Error::NotAFile(_))));
}

#[test]
fn read_sets_size_time_and_etag() {
    let content = read_with(&config(), "test/readme.md", &files()).unwrap();
    assert_eq!(content.size, 7);
    assert_eq!(content.modified_at, Some(1_500_000_000_000_000_000));
    assert_eq!(content.etag.as_deref(), Some("\"1500000000000000000\""));
}

#[test]
fn etag_is_quoted_nanoseconds() {
    assert_eq!(etag_for(Some(0)), Some("\"0\"".to_string()));
    assert_eq!(etag_for(Some(1234567890)), Some("\"1234567890\"".to_string()));
    assert_eq!(etag_for(Some(-1)), None);
    assert_eq!(etag_for(None), None);
}

#[test]
fn decimal_text_spells_numbers() {
    assert_eq!(decimal_text(0), "0");
    assert_eq!(decimal_text(7), "7");
    assert_eq!(decimal_text(10), "10");
    assert_eq!(decimal_text(u128::MAX), u128::MAX.to_string());
}

#[test]
fn read_respects_allow_list() {
    let cfg = Config {
        roots: vec![Root {
            name: "ws".into(),
            path: ROOT_DIR.into(),
            read_only: true,
            expose: vec!["notes".into(), "secret.txt".into()],
        }],
        ..Config::default()
    };
    let f = files();
    assert_eq!(read_with(&cfg, "ws/notes/todo.md", &f).unwrap().content, "- Task 1");
    // allow-list mode ignores the extension rule
    assert_eq!(read_with(&cfg, "ws/secret.txt", &f).unwrap().content, "secret");
    assert!(matches!(read_with(&cfg, "ws/readme.md", &f), Err(Error::NotVisible(_))));
}

#[test]
fn read_rejects_absolute_relative_part() {
    assert!(matches!(read(&config(), "test//etc/passwd"), Err(Error::PathTraversal(p)) if p == "/etc/passwd"));
}
