use lontar::watcher::{
    flush_pending, handle_notify_event, insert_coalesced, NotifyKind, RawEvent, VaultWatcherError,
    WatchEvent, BULK_THRESHOLD,
};

fn paths(ps: &[&str]) -> Vec<String> {
    ps.iter().map(|p| p.to_string()).collect()
}

fn pending_of(events: Vec<RawEvent>) -> Vec<(String, RawEvent)> {
    let mut pending = Vec::new();
    for e in events {
        insert_coalesced(&mut pending, e);
    }
    pending
}

#[test]
fn notifications_for_markdown_files_pass() {
    let r = handle_notify_event(NotifyKind::Create, &paths(&["/v/a.md"]), &vec![false], "/v");
    assert!(matches!(&r[..], [RawEvent::Created(p)] if p == "/v/a.md"));
    let r = handle_notify_event(NotifyKind::Modify, &paths(&["/v/B.MD"]), &vec![false], "/v");
    assert!(matches!(&r[..], [RawEvent::Modified(p)] if p == "/v/B.MD"));
    let r = handle_notify_event(NotifyKind::Remove, &paths(&["/v/dir"]), &vec![true], "/v");
    assert!(matches!(&r[..], [RawEvent::Removed(p)] if p == "/v/dir"));
}

#[test]
fn hidden_outside_and_other_files_are_ignored() {
    let ps = paths(&["/v/.hidden.md", "/v/.trash/note.md", "/v/.git/config", "/w/a.md", "/v/readme.txt"]);
    let dirs = vec![false; ps.len()];
    assert!(handle_notify_event(NotifyKind::Create, &ps, &dirs, "/v").is_empty());
    assert!(handle_notify_event(NotifyKind::Other, &paths(&["/v/a.md"]), &vec![false], "/v").is_empty());
}

#[test]
fn rename_kinds() {
    let r = handle_notify_event(NotifyKind::RenameBoth, &paths(&["/v/a.md", "/v/b.md"]), &vec![false, false], "/v");
    assert!(matches!(&r[..], [RawEvent::Renamed { old, new }] if old == "/v/a.md" && new == "/v/b.md"));
    let r = handle_notify_event(NotifyKind::RenameBoth, &paths(&["/v/a.txt", "/v/b.txt"]), &vec![false, false], "/v");
    assert!(r.is_empty());
    let r = handle_notify_event(NotifyKind::RenameFrom, &paths(&["/v/a.md"]), &vec![false], "/v");
    assert!(matches!(&r[..], [RawEvent::Removed(_)]));
    let r = handle_notify_event(NotifyKind::RenameTo, &paths(&["/v/a.md"]), &vec![false], "/v");
    assert!(matches!(&r[..], [RawEvent::Created(_)]));
    let r = handle_notify_event(NotifyKind::RenameAny, &paths(&["/v/a.md"]), &vec![false], "/v");
    assert!(matches!(&r[..], [RawEvent::Modified(_)]));
}

#[test]
fn modified_after_created_is_coalesced() {
    let pending = pending_of(vec![
        RawEvent::Created("/v/quick.md".into()),
        RawEvent::Modified("/v/quick.md".into()),
    ]);
    let out = flush_pending(&pending);
    assert_eq!(out.len(), 1);
    assert!(matches!(&out[0], WatchEvent::Created(p) if p == "/v/quick.md"));
}

#[test]
fn repeated_modifications_and_replacements() {
    let pending = pending_of(vec![
        RawEvent::Modified("/v/a.md".into()),
        RawEvent::Modified("/v/a.md".into()),
        RawEvent::Created("/v/b.md".into()),
        RawEvent::Removed("/v/b.md".into()),
        RawEvent::Renamed { old: "/v/c.md".into(), new: "/v/d.md".into() },
    ]);
    assert_eq!(pending.len(), 3);
    let out = flush_pending(&pending);
    assert!(matches!(&out[0], WatchEvent::Modified(p) if p == "/v/a.md"));
    assert!(matches!(&out[1], WatchEvent::Removed(p) if p == "/v/b.md"));
    assert!(matches!(&out[2], WatchEvent::Rename { old, new } if old == "/v/c.md" && new == "/v/d.md"));
}

#[test]
fn many_paths_become_a_bulk_change() {
    let events: Vec<RawEvent> = (0..15).map(|i| RawEvent::Created(format!("/v/note_{i}.md"))).collect();
    let out = flush_pending(&pending_of(events));
    assert_eq!(out.len(), 1);
    assert!(matches!(out[0], WatchEvent::BulkChange { count } if count > 10 && count == 15));
}

#[test]
fn threshold_is_inclusive() {
    let events: Vec<RawEvent> = (0..BULK_THRESHOLD).map(|i| RawEvent::Created(format!("/v/n{i}.md"))).collect();
    let out = flush_pending(&pending_of(events));
    assert_eq!(out.len(), BULK_THRESHOLD);
    assert!(flush_pending(&Vec::new()).is_empty());
}

#[test]
fn same_change_twice_is_once() {
    let once = pending_of(vec![RawEvent::Removed("/v/x.md".into())]);
    let twice = pending_of(vec![RawEvent::Removed("/v/x.md".into()), RawEvent::Removed("/v/x.md".into())]);
    assert_eq!(once.len(), twice.len());
    assert!(matches!(&twice[0].1, RawEvent::Removed(p) if p == "/v/x.md"));
}

#[test]
fn watcher_error_message() {
    let e = VaultWatcherError::Io(std::io::Error::new(std::io::ErrorKind::Other, "boom"));
    assert_eq!(e.message(), "watcher I/O error: boom");
}
