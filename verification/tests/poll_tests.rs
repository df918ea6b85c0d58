use live_files::events::ChangeKind;
use live_files::poll::{diff, Snapshot};

fn snap(entries: &[(&str, u64, u64)]) -> Snapshot {
    let mut s = Snapshot::new();
    for &(path, secs, size) in entries {
        s.insert(path.to_string(), secs as i128 * 1_000_000_000, size);
    }
    s
}

#[test]
fn diff_created() {
    let events = diff(&snap(&[]), &snap(&[("ws/a.md", 100, 10)]));
    assert_eq!(events.len(), 1);
    assert!(matches!(events[0].kind, ChangeKind::Created));
    assert_eq!(events[0].path, "ws/a.md");
}

#[test]
fn diff_modified_mtime() {
    let events = diff(&snap(&[("ws/a.md", 100, 10)]), &snap(&[("ws/a.md", 200, 10)]));
    assert_eq!(events.len(), 1);
    assert!(matches!(events[0].kind, ChangeKind::Modified));
}

#[test]
fn diff_modified_size() {
    let events = diff(&snap(&[("ws/a.md", 100, 10)]), &snap(&[("ws/a.md", 100, 20)]));
    assert_eq!(events.len(), 1);
    assert!(matches!(events[0].kind, ChangeKind::Modified));
}

#[test]
fn diff_deleted() {
    let events = diff(&snap(&[("ws/a.md", 100, 10)]), &snap(&[]));
    assert_eq!(events.len(), 1);
    assert!(matches!(events[0].kind, ChangeKind::Deleted));
    assert_eq!(events[0].path, "ws/a.md");
}

#[test]
fn diff_unchanged() {
    let events = diff(&snap(&[("ws/a.md", 100, 10)]), &snap(&[("ws/a.md", 100, 10)]));
    assert!(events.is_empty());
}

#[test]
fn diff_mixed() {
    // a.md modified, b.md deleted, c.md created
    let prev = snap(&[("ws/a.md", 100, 10), ("ws/b.md", 100, 20)]);
    let curr = snap(&[("ws/a.md", 200, 10), ("ws/c.md", 100, 5)]);
    let events = diff(&prev, &curr);
    assert_eq!(events.len(), 3);
}

#[test]
fn diff_events_carry_times_and_order() {
    let prev = snap(&[("ws/a.md", 100, 10), ("ws/b.md", 100, 20)]);
    let curr = snap(&[("ws/a.md", 200, 10), ("ws/c.md", 100, 5)]);
    let events = diff(&prev, &curr);
    assert_eq!(events[0].path, "ws/a.md");
    assert!(matches!(events[0].kind, ChangeKind::Modified));
    assert_eq!(events[0].modified_at, Some(200_000_000_000));
    assert_eq!(events[1].path, "ws/c.md");
    assert!(matches!(events[1].kind, ChangeKind::Created));
    assert_eq!(events[2].path, "ws/b.md");
    assert!(matches!(events[2].kind, ChangeKind::Deleted));
    assert_eq!(events[2].modified_at, None);
    assert!(events.iter().all(|e| e.from.is_none()));
}

#[test]
fn snapshot_insert_replaces_existing_path() {
    let mut s = Snapshot::new();
    s.insert("ws/a.md".to_string(), 1, 2);
    s.insert("ws/a.md".to_string(), 3, 4);
    assert_eq!(s.len(), 1);
    assert_eq!(s.get("ws/a.md"), Some((3, 4)));
    assert!(s.contains_key("ws/a.md"));
    assert!(!s.contains_key("ws/b.md"));
    assert_eq!(s.get("ws/b.md"), None);
}
