use live_files::events::ChangeKind;
use live_files::glob::build_glob_set;
use live_files::watch::{
    dispatch, is_visible, logical, to_change_event, CanonicalRoot, EventKindModel, FsEvent, ModifyKindModel,
    RenameModeModel,
};

fn roots() -> Vec<CanonicalRoot> {
    vec![
        CanonicalRoot { name: "ws".into(), canonical: "/data/ws".into(), expose: vec![] },
        CanonicalRoot { name: "docs".into(), canonical: "/data/docs".into(), expose: vec!["public".into()] },
    ]
}

fn ev(kind: EventKindModel, paths: &[&str]) -> FsEvent {
    FsEvent { kind, paths: paths.iter().map(|p| p.to_string()).collect() }
}

#[test]
fn logical_uses_first_matching_root() {
    assert_eq!(logical("/data/ws/notes/a.md", &roots()), Some("ws/notes/a.md".to_string()));
    assert_eq!(logical("/data/docs/public/b.md", &roots()), Some("docs/public/b.md".to_string()));
    assert_eq!(logical("/elsewhere/a.md", &roots()), None);
    assert_eq!(logical("/data/wsx/a.md", &roots()), None);
}

#[test]
fn creation_and_removal() {
    let c = to_change_event(&ev(EventKindModel::Create, &["/data/ws/a.md"]), &roots()).unwrap();
    assert_eq!(c.kind, ChangeKind::Created);
    assert_eq!(c.path, "ws/a.md");
    assert_eq!(c.stat_path.as_deref(), Some("/data/ws/a.md"));
    let d = to_change_event(&ev(EventKindModel::Remove, &["/data/ws/a.md"]), &roots()).unwrap();
    assert_eq!(d.kind, ChangeKind::Deleted);
    assert!(d.stat_path.is_none());
}

#[test]
fn renames() {
    let both = EventKindModel::Modify(ModifyKindModel::Name(RenameModeModel::Both));
    let r = to_change_event(&ev(both, &["/data/ws/old.md", "/data/ws/new.md"]), &roots()).unwrap();
    assert_eq!(r.kind, ChangeKind::Renamed);
    assert_eq!(r.path, "ws/new.md");
    assert_eq!(r.from.as_deref(), Some("ws/old.md"));
    assert_eq!(r.stat_path.as_deref(), Some("/data/ws/new.md"));
    assert!(to_change_event(&ev(both, &["/data/ws/old.md"]), &roots()).is_none());
    let from = EventKindModel::Modify(ModifyKindModel::Name(RenameModeModel::From));
    assert_eq!(to_change_event(&ev(from, &["/data/ws/a.md"]), &roots()).unwrap().kind, ChangeKind::Deleted);
    let to = EventKindModel::Modify(ModifyKindModel::Name(RenameModeModel::To));
    assert_eq!(to_change_event(&ev(to, &["/data/ws/a.md"]), &roots()).unwrap().kind, ChangeKind::Created);
}

#[test]
fn content_changes_and_ignored_kinds() {
    for k in [ModifyKindModel::Data, ModifyKindModel::Any, ModifyKindModel::Other] {
        let c = to_change_event(&ev(EventKindModel::Modify(k), &["/data/ws/a.md"]), &roots()).unwrap();
        assert_eq!(c.kind, ChangeKind::Modified);
    }
    assert!(to_change_event(&ev(EventKindModel::Modify(ModifyKindModel::Metadata), &["/data/ws/a.md"]), &roots()).is_none());
    assert!(to_change_event(&ev(EventKindModel::Access, &["/data/ws/a.md"]), &roots()).is_none());
    assert!(to_change_event(&ev(EventKindModel::Any, &["/data/ws/a.md"]), &roots()).is_none());
    assert!(to_change_event(&ev(EventKindModel::Create, &[]), &roots()).is_none());
    assert!(to_change_event(&ev(EventKindModel::Create, &["/tmp/a.md"]), &roots()).is_none());
}

#[test]
fn visibility_of_logical_paths() {
    let ignore = build_glob_set(&vec!["**/.git/**".to_string()]).unwrap();
    let exts = vec!["md".to_string()];
    assert!(is_visible("ws/a.md", &roots(), &exts, &ignore, None));
    assert!(!is_visible("ws/a.txt", &roots(), &exts, &ignore, None));
    assert!(!is_visible("nope/a.md", &roots(), &exts, &ignore, None));
    assert!(!is_visible("ws", &roots(), &exts, &ignore, None));
    assert!(is_visible("docs/public/x.txt", &roots(), &exts, &ignore, None));
    assert!(!is_visible("docs/private.md", &roots(), &exts, &ignore, None));
}

#[test]
fn dispatch_keeps_visible_changes_in_order() {
    let ignore = build_glob_set(&vec![]).unwrap();
    let exts = vec!["md".to_string()];
    let events = vec![
        ev(EventKindModel::Create, &["/data/ws/a.md"]),
        ev(EventKindModel::Create, &["/data/ws/a.txt"]),
        ev(EventKindModel::Access, &["/data/ws/b.md"]),
        ev(EventKindModel::Remove, &["/data/ws/c.md"]),
    ];
    let out = dispatch(&events, &roots(), &exts, &ignore, None);
    assert_eq!(out.len(), 2);
    assert_eq!(out[0].path, "ws/a.md");
    assert_eq!(out[1].path, "ws/c.md");
    let e = dispatch(&events, &roots(), &exts, &ignore, None).remove(0).into_event(Some(5));
    assert_eq!(e.modified_at, Some(5));
    assert_eq!(e.kind, ChangeKind::Created);
}

#[test]
fn dispatch_drops_renames_that_reveal_hidden_paths() {
    let ignore = build_glob_set(&vec![]).unwrap();
    let exts = vec!["md".to_string()];
    let both = EventKindModel::Modify(ModifyKindModel::Name(RenameModeModel::Both));
    let events = vec![
        // a hidden file renamed to a visible name must not reveal its old name
        ev(both, &["/data/ws/secret.txt", "/data/ws/a.md"]),
        ev(both, &["/data/ws/a.md", "/data/ws/b.txt"]),
        ev(both, &["/data/ws/b.md", "/data/ws/c.md"]),
    ];
    let out = dispatch(&events, &roots(), &exts, &ignore, None);
    assert_eq!(out.len(), 1);
    assert_eq!(out[0].kind, ChangeKind::Renamed);
    assert_eq!(out[0].from.as_deref(), Some("ws/b.md"));
    assert_eq!(out[0].path, "ws/c.md");
}
