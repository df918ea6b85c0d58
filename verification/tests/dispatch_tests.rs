use live_files::config::Config;
use live_files::dispatch::{window_ms, DedupWindow};
use live_files::events::{kind_tag, ChangeKind};

const SECOND: u64 = 1_000_000_000;
const MILLI: u64 = 1_000_000;

#[test]
fn suppresses_duplicate_within_window() {
    let mut d = DedupWindow::new(5 * SECOND);
    assert!(d.should_deliver(&ChangeKind::Modified, "docs/a.md", 0));
    // a repeat inside the window is dropped
    assert!(!d.should_deliver(&ChangeKind::Modified, "docs/a.md", 1));
}

#[test]
fn passes_distinct_paths() {
    let mut d = DedupWindow::new(5 * SECOND);
    assert!(d.should_deliver(&ChangeKind::Modified, "docs/a.md", 0));
    assert!(d.should_deliver(&ChangeKind::Modified, "docs/b.md", 1));
}

#[test]
fn passes_after_window() {
    let mut d = DedupWindow::new(20 * MILLI);
    assert!(d.should_deliver(&ChangeKind::Modified, "docs/a.md", 0));
    // 40 ms later the window has passed
    assert!(d.should_deliver(&ChangeKind::Modified, "docs/a.md", 40 * MILLI));
}

#[test]
fn distinct_kinds_are_distinct_keys() {
    let mut d = DedupWindow::new(5 * SECOND);
    assert!(d.should_deliver(&ChangeKind::Created, "docs/a.md", 0));
    assert!(d.should_deliver(&ChangeKind::Modified, "docs/a.md", 0));
    assert!(!d.should_deliver(&ChangeKind::Created, "docs/a.md", 10));
}

#[test]
fn window_edge_is_exclusive() {
    let mut d = DedupWindow::new(100);
    assert!(d.should_deliver(&ChangeKind::Deleted, "x/y.md", 1000));
    assert!(!d.should_deliver(&ChangeKind::Deleted, "x/y.md", 1099));
    assert!(d.should_deliver(&ChangeKind::Deleted, "x/y.md", 1100));
}

#[test]
fn kind_tags() {
    assert_eq!(kind_tag(&ChangeKind::Created), 0);
    assert_eq!(kind_tag(&ChangeKind::Modified), 1);
    assert_eq!(kind_tag(&ChangeKind::Deleted), 2);
    assert_eq!(kind_tag(&ChangeKind::Renamed), 3);
}

#[test]
fn suppressed_duplicate_does_not_extend_window() {
    let mut d = DedupWindow::new(16);
    assert!(d.should_deliver(&ChangeKind::Modified, "docs/a.md", 0));
    assert!(!d.should_deliver(&ChangeKind::Modified, "docs/a.md", 10));
    // 20 is a full window after the delivery at 0, though only 10 after
    // the suppressed one
    assert!(d.should_deliver(&ChangeKind::Modified, "docs/a.md", 20));
    assert!(!d.should_deliver(&ChangeKind::Modified, "docs/a.md", 35));
}

#[test]
fn window_covers_debounce_and_polling() {
    let c = Config::default();
    assert_eq!(window_ms(&c), 3000);
    let no_poll = Config { poll_interval_ms: None, ..Config::default() };
    assert_eq!(window_ms(&no_poll), 300);
    let slow_debounce = Config { debounce_ms: 5000, ..Config::default() };
    assert_eq!(window_ms(&slow_debounce), 5000);
}
