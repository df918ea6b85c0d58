use live_files::glob::{build_glob_set, build_glob_set_lenient};
use live_files::watch::{CanonicalRoot, WatchFilters};
use live_files::config::Config;
use live_files::visibility::{extension, is_exposed};
use live_files::Error;

fn strings(v: &[&str]) -> Vec<String> {
    v.iter().map(|s| s.to_string()).collect()
}

#[test]
fn extension_follows_path_rules() {
    assert_eq!(extension("notes/todo.md"), Some("md".to_string()));
    assert_eq!(extension("a.tar.gz"), Some("gz".to_string()));
    assert_eq!(extension(".md"), None);
    assert_eq!(extension("dir/.hidden"), None);
    assert_eq!(extension("noext"), None);
    assert_eq!(extension("a."), Some(String::new()));
    assert_eq!(extension("a.md/"), Some("md".to_string()));
    assert_eq!(extension("a/.."), None);
    assert_eq!(extension(""), None);
}

#[test]
fn global_rules_filter_by_extension_case_insensitively() {
    let ignore = build_glob_set(&strings(&["**/.git/**"])).unwrap();
    let exts = strings(&["md"]);
    assert!(is_exposed(&vec![], "notes/todo.md", &exts, &ignore, None));
    assert!(is_exposed(&vec![], "README.MD", &exts, &ignore, None));
    assert!(!is_exposed(&vec![], "secret.txt", &exts, &ignore, None));
    assert!(!is_exposed(&vec![], "x/.git/a.md", &exts, &ignore, None));
}

#[test]
fn empty_extension_list_allows_any_extension() {
    let ignore = build_glob_set(&vec![]).unwrap();
    assert!(is_exposed(&vec![], "secret.txt", &vec![], &ignore, None));
    assert!(is_exposed(&vec![], "noext", &vec![], &ignore, None));
}

#[test]
fn include_globs_narrow_the_visible_files() {
    let ignore = build_glob_set(&vec![]).unwrap();
    let wanted = build_glob_set(&strings(&["docs/**"])).unwrap();
    let exts = strings(&["md"]);
    assert!(is_exposed(&vec![], "docs/a.md", &exts, &ignore, Some(&wanted)));
    assert!(!is_exposed(&vec![], "notes/a.md", &exts, &ignore, Some(&wanted)));
}

#[test]
fn allow_list_matches_files_and_directories() {
    let ignore = build_glob_set(&strings(&["**/*.txt"])).unwrap();
    let exts = strings(&["md"]);
    let expose = strings(&["readme.md", "docs"]);
    assert!(is_exposed(&expose, "readme.md", &exts, &ignore, None));
    assert!(is_exposed(&expose, "docs/api/x.txt", &exts, &ignore, None));
    assert!(is_exposed(&expose, "docs", &exts, &ignore, None));
    assert!(!is_exposed(&expose, "docs-old/a.md", &exts, &ignore, None));
    assert!(!is_exposed(&expose, "notes/todo.md", &exts, &ignore, None));
}

#[test]
fn glob_sets_match_paths() {
    let set = build_glob_set(&strings(&["*.md", "docs/**"])).unwrap();
    let exts = vec![];
    // a path that an ignore glob matches is hidden
    assert!(!is_exposed(&vec![], "a.md", &exts, &set, None));
    assert!(!is_exposed(&vec![], "docs/x/y", &exts, &set, None));
    assert!(is_exposed(&vec![], "docs", &exts, &set, None));
    assert!(is_exposed(&vec![], "a.txt", &exts, &set, None));
}

#[test]
fn strict_build_reports_the_first_bad_pattern() {
    match build_glob_set(&strings(&["ok/**", "a[", "b{"])) {
        Err(Error::InvalidGlob(m)) => assert!(m.starts_with("a[: "), "{}", m),
        Err(e) => panic!("unexpected {:?}", e),
        Ok(_) => panic!("unexpected success"),
    }
}

#[test]
fn lenient_build_skips_bad_patterns() {
    let set = build_glob_set_lenient(&strings(&["a[", "*.md"]));
    assert!(!is_exposed(&vec![], "x.md", &vec![], &set, None));
    assert!(is_exposed(&vec![], "x.txt", &vec![], &set, None));
}

#[test]
fn watch_filters_are_lenient() {
    let config = Config {
        ignore_globs: strings(&["a[", "**/.git/**"]),
        include_globs: strings(&["b{", "docs/**"]),
        ..Config::default()
    };
    let f = WatchFilters::new(&config);
    let root = CanonicalRoot { name: "ws".into(), canonical: "/ws".into(), expose: vec![] };
    assert!(f.descend(&root, "docs"));
    assert!(!f.descend(&root, "x/.git/objects"));
    let listed = CanonicalRoot { name: "ws".into(), canonical: "/ws".into(), expose: vec!["x/.git/objects/a.md".into()] };
    assert!(f.descend(&listed, "x/.git/objects"));
    assert!(f.file_visible(&root, "docs/a.md"));
    assert!(!f.file_visible(&root, "notes/a.md"));
    assert!(!f.file_visible(&root, "docs/a.txt"));
}

#[test]
fn files_under_an_ignored_directory_are_hidden() {
    let set = build_glob_set(&vec!["cache".to_string()]).unwrap();
    let exts = vec!["md".to_string()];
    assert!(!is_exposed(&vec![], "cache/a.md", &exts, &set, None));
    assert!(!is_exposed(&vec![], "cache/x/b.md", &exts, &set, None));
    assert!(is_exposed(&vec![], "src/cache.md", &exts, &set, None));
    assert!(is_exposed(&vec![], "a/cache/c.md", &exts, &set, None));
    // an allow list replaces the rule
    assert!(is_exposed(&vec!["cache".to_string()], "cache/a.md", &exts, &set, None));
}
