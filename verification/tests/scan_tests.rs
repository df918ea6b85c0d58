use live_files::config::{Config, Root};
use live_files::scan::{child_relative, list, scan_root, FileNode, ListAction, NodeKind, RawEntry, RawKind, ScanFilters};
use live_files::Error;

fn config() -> Config {
    Config {
        roots: vec![Root { name: "test".into(), path: "/srv/data".into(), read_only: true, expose: vec![] }],
        ..Config::default()
    }
}

fn file(name: &str, size: u64) -> RawEntry {
    RawEntry { name: name.into(), kind: RawKind::File { size, modified_at: Some(42) } }
}

fn dir(name: &str, children: Vec<RawEntry>) -> RawEntry {
    RawEntry { name: name.into(), kind: RawKind::Dir(Some(children)) }
}

/// readme.md, notes/todo.md and secret.txt, listed in an arbitrary order.
fn raw_root() -> Vec<RawEntry> {
    vec![file("secret.txt", 6), dir("notes", vec![file("todo.md", 8)]), file("readme.md", 7)]
}

fn count_files(nodes: &[FileNode]) -> usize {
    nodes
        .iter()
        .map(|n| match &n.children {
            Some(children) => count_files(children),
            None => 1,
        })
        .sum()
}

/// Runs a listing where every root holds the entries of `raw_root`.
fn run_list(config: &Config, root: Option<&str>) -> Result<Vec<live_files::scan::FileTree>, Error> {
    let filters = ScanFilters::new(config)?;
    let mut listing = list(config, root)?;
    loop {
        let (next, action) = listing.next_action();
        listing = next;
        match action {
            ListAction::ScanRoot(i) => {
                let tree = scan_root(&config.roots[i], config, &filters, &raw_root());
                listing.add(tree);
            }
            ListAction::Finished(trees) => return Ok(trees),
        }
    }
}

#[test]
fn list_returns_md_files_only() {
    let trees = run_list(&config(), None).unwrap();
    assert_eq!(trees.len(), 1);
    assert_eq!(count_files(&trees[0].tree), 2); // readme.md + notes/todo.md
}

#[test]
fn list_specific_root() {
    let trees = run_list(&config(), Some("test")).unwrap();
    assert_eq!(trees.len(), 1);
}

#[test]
fn list_unknown_root() {
    assert!(matches!(list(&config(), Some("nonexistent")), Err(Error::RootNotFound(_))));
}

#[test]
fn list_orders_entries_by_name() {
    let trees = run_list(&config(), None).unwrap();
    let names: Vec<&str> = trees[0].tree.iter().map(|n| n.name.as_str()).collect();
    assert_eq!(names, vec!["notes", "readme.md"]);
    let notes = &trees[0].tree[0];
    assert_eq!(notes.kind, NodeKind::Dir);
    assert!(notes.path.is_none() && notes.size.is_none());
    let todo = &notes.children.as_ref().unwrap()[0];
    assert_eq!(todo.kind, NodeKind::File);
    assert_eq!(todo.path.as_deref(), Some("test/notes/todo.md"));
    assert_eq!(todo.size, Some(8));
    assert_eq!(todo.modified_at, Some(42));
    let readme = &trees[0].tree[1];
    assert_eq!(readme.path.as_deref(), Some("test/readme.md"));
}

#[test]
fn list_all_roots_in_order() {
    let mut cfg = config();
    cfg.roots.push(Root { name: "skills".into(), path: "/srv/skills".into(), read_only: true, expose: vec![] });
    let trees = run_list(&cfg, None).unwrap();
    assert_eq!(trees.len(), 2);
    assert_eq!(trees[0].root, "test");
    assert_eq!(trees[1].root, "skills");
    let only = run_list(&cfg, Some("skills")).unwrap();
    assert_eq!(only.len(), 1);
    assert_eq!(only[0].root, "skills");
}

#[test]
fn list_skips_ignored_directories() {
    let cfg = config();
    let filters = ScanFilters::new(&cfg).unwrap();
    // "dir/**" matches what lies below a directory, not the directory itself
    let root = &cfg.roots[0];
    assert!(filters.descend(root, ".git"));
    assert!(!filters.descend(root, ".git/objects"));
    assert!(!filters.descend(root, "a/node_modules/pkg"));
    assert!(filters.descend(root, "notes"));
    let raw = vec![
        dir(".git", vec![file("HEAD.md", 1)]),
        RawEntry { name: "node_modules".into(), kind: RawKind::Dir(None) },
        RawEntry { name: "link.md".into(), kind: RawKind::Other },
        file("a.md", 1),
    ];
    let tree = scan_root(&cfg.roots[0], &cfg, &filters, &raw);
    let names: Vec<&str> = tree.tree.iter().map(|n| n.name.as_str()).collect();
    assert_eq!(names, vec![".git", "a.md", "node_modules"]);
    // files below .git are hidden by the ignore globs
    assert_eq!(tree.tree[0].children.as_ref().unwrap().len(), 0);
    assert_eq!(tree.tree[2].children.as_ref().unwrap().len(), 0);
}

#[test]
fn allow_list_reaches_files_under_ignored_directories() {
    let cfg = Config {
        roots: vec![Root {
            name: "test".into(),
            path: "/srv/data".into(),
            read_only: true,
            expose: vec!["a/node_modules/pkg/readme.md".into()],
        }],
        ..Config::default()
    };
    let filters = ScanFilters::new(&cfg).unwrap();
    let root = &cfg.roots[0];
    // an allow list replaces the global rules, ignore globs included
    assert!(filters.descend(root, "a/node_modules/pkg"));
    let raw = vec![dir(
        "a",
        vec![dir("node_modules", vec![dir("pkg", vec![file("readme.md", 3), file("other.md", 4)])])],
    )];
    let tree = scan_root(root, &cfg, &filters, &raw);
    assert_eq!(count_files(&tree.tree), 1);
    let pkg = &tree.tree[0].children.as_ref().unwrap()[0].children.as_ref().unwrap()[0];
    let files = pkg.children.as_ref().unwrap();
    assert_eq!(files.len(), 1);
    assert_eq!(files[0].path.as_deref(), Some("test/a/node_modules/pkg/readme.md"));
}

#[test]
fn invalid_glob_is_reported() {
    let cfg = Config { ignore_globs: vec!["a[".into()], ..config() };
    match ScanFilters::new(&cfg) {
        Err(Error::InvalidGlob(m)) => assert!(m.starts_with("a[: ")),
        Err(e) => panic!("unexpected {:?}", e),
        Ok(_) => panic!("unexpected success"),
    }
}

#[test]
fn child_relative_joins_and_fixes_backslashes() {
    assert_eq!(child_relative("", "a.md"), "a.md");
    assert_eq!(child_relative("notes", "a\\b.md"), "notes/a/b.md");
}
