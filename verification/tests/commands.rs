use lontar::commands::{
    checked_input, days_from_civil, effective_limit, parse_iso_to_micros, payloads_for,
    sanitize_path, stale_paths, strip_vault_prefix, sync_actions_for, watch_steps, CommandError,
    SyncAction, TreeEntryJson, WatchEventPayload, WatchStep,
};
use lontar::vault::TreeEntry;
use lontar::watcher::WatchEvent;

fn vault_error(r: Result<String, CommandError>) -> String {
    match r {
        Err(CommandError::Vault(m)) => m,
        Err(e) => panic!("unexpected error: {}", e.message()),
        Ok(p) => panic!("accepted: {p}"),
    }
}

#[test]
fn sanitize_accepts_absolute_paths() {
    assert_eq!(sanitize_path("  /srv/notes  ").ok(), Some("/srv/notes".to_string()));
    assert_eq!(sanitize_path("/opt/vault/sub").ok(), Some("/opt/vault/sub".to_string()));
}

#[test]
fn sanitize_rejects_each_rule() {
    assert_eq!(vault_error(sanitize_path("   ")), "path must not be empty");
    assert_eq!(vault_error(sanitize_path("/srv/a\0b")), "path contains null byte");
    assert_eq!(vault_error(sanitize_path("notes/vault")), "path must be absolute");
    assert_eq!(
        vault_error(sanitize_path("/srv/../etc")),
        "path must not contain path traversal (..)"
    );
    assert_eq!(vault_error(sanitize_path("/tmp/vault")), "path under /tmp is not allowed");
    assert_eq!(vault_error(sanitize_path("/home/user/vault")), "path under /home is not allowed");
    assert_eq!(vault_error(sanitize_path("/home")), "path under /home is not allowed");
    assert_eq!(vault_error(sanitize_path("/root")), "path under /root is not allowed");
    assert_eq!(vault_error(sanitize_path("/var//log")), "path under /var is not allowed");
}

#[test]
fn sanitize_compares_whole_directories() {
    assert_eq!(sanitize_path("  /opt/vaults/notes  ").ok(), Some("/opt/vaults/notes".to_string()));
    assert_eq!(sanitize_path("/homework/notes").ok(), Some("/homework/notes".to_string()));
    assert_eq!(sanitize_path("/tmpfiles").ok(), Some("/tmpfiles".to_string()));
}

#[test]
fn sanitize_allows_dots_inside_names() {
    assert_eq!(sanitize_path("/srv/a..b").ok(), Some("/srv/a..b".to_string()));
}

#[test]
fn command_error_messages() {
    assert_eq!(CommandError::VaultNotOpen.message(), "vault not open");
    assert_eq!(
        CommandError::IndexerNotReady.message(),
        "indexer not available — try rebuilding the index"
    );
    assert_eq!(CommandError::SearchNotReady.message(), "search engine not available");
    assert_eq!(CommandError::Vault("x".into()).message(), "vault error: x");
    assert_eq!(CommandError::Indexer("x".into()).message(), "indexer error: x");
    assert_eq!(CommandError::Search("x".into()).message(), "search error: x");
    assert_eq!(CommandError::Watcher("x".into()).message(), "watcher error: x");
    assert_eq!(CommandError::Io("x".into()).message(), "io error: x");
}

#[test]
fn strip_prefix_relative_or_hidden() {
    assert_eq!(strip_vault_prefix("/vault/sub/a.md", "/vault"), "sub/a.md");
    assert_eq!(strip_vault_prefix("/vault/a.md", "/vault/"), "a.md");
    assert_eq!(strip_vault_prefix("/other/a.md", "/vault"), "[outside-vault]");
    assert_eq!(strip_vault_prefix("/vaultx/a.md", "/vault"), "[outside-vault]");
}

#[test]
fn civil_days_known_dates() {
    assert_eq!(days_from_civil(1970, 1, 1), 0);
    assert_eq!(days_from_civil(1970, 1, 2), 1);
    assert_eq!(days_from_civil(2000, 3, 1), 11017);
    assert_eq!(days_from_civil(2024, 1, 1), 19723);
    assert_eq!(days_from_civil(1969, 12, 31), -1);
    assert_eq!(days_from_civil(2024, 3, 1) - days_from_civil(2024, 2, 29), 1);
    assert_eq!(days_from_civil(1900, 3, 1) - days_from_civil(1900, 2, 28), 1);
}

#[test]
fn iso_timestamps() {
    assert_eq!(parse_iso_to_micros(""), 0);
    assert_eq!(parse_iso_to_micros("2024"), 0);
    assert_eq!(parse_iso_to_micros("1970-01-01"), 0);
    assert_eq!(parse_iso_to_micros("1970-01-02"), 86_400_000_000);
    assert_eq!(parse_iso_to_micros("1970-01-01T01:02:03"), 3_723_000_000);
    assert_eq!(parse_iso_to_micros("2024-01-01T00:00:00.123Z"), 19723 * 86_400_000_000);
    assert_eq!(parse_iso_to_micros("abcd-01-01"), 0);
    assert_eq!(parse_iso_to_micros("1970-01-01Txx:00:00"), 0);
    assert_eq!(parse_iso_to_micros("1970-01-01 01:00:00"), 0);
    assert_eq!(parse_iso_to_micros("2024-03-00"), 0);
    assert_eq!(parse_iso_to_micros("2024-02-00"), days_from_civil(2024, 1, 31) * 86_400_000_000);
}

#[test]
fn tree_entries_mirror() {
    let tree = TreeEntry::Dir {
        name: "root".into(),
        children: vec![
            TreeEntry::File { name: "a.md".into() },
            TreeEntry::Dir { name: "sub".into(), children: vec![] },
        ],
    };
    match TreeEntryJson::from_entry(&tree) {
        TreeEntryJson::Dir { name, children } => {
            assert_eq!(name, "root");
            assert_eq!(children.len(), 2);
            assert!(matches!(&children[0], TreeEntryJson::File { name } if name == "a.md"));
            assert!(matches!(&children[1], TreeEntryJson::Dir { name, children } if name == "sub" && children.is_empty()));
        }
        TreeEntryJson::File { .. } => panic!("expected a directory"),
    }
}

#[test]
fn inputs_are_trimmed_and_nul_refused() {
    assert_eq!(checked_input("  a.md \n"), Some("a.md".to_string()));
    assert_eq!(checked_input("a\0.md"), None);
    assert_eq!(checked_input(""), Some(String::new()));
}

#[test]
fn search_limits() {
    assert_eq!(effective_limit(None, 20), 20);
    assert_eq!(effective_limit(Some(5), 20), 5);
    assert_eq!(effective_limit(Some(500), 20), 100);
    assert_eq!(effective_limit(None, 10), 10);
}

#[test]
fn payloads_for_each_event() {
    let p = payloads_for(&WatchEvent::Created("/v/a.md".into()), "/v");
    assert!(matches!(&p[..], [WatchEventPayload::Created { path }] if path == "a.md"));
    let p = payloads_for(&WatchEvent::Modified("/v/a.md".into()), "/v");
    assert!(matches!(&p[..], [WatchEventPayload::Modified { path }] if path == "a.md"));
    let p = payloads_for(&WatchEvent::Removed("/x/a.md".into()), "/v");
    assert!(matches!(&p[..], [WatchEventPayload::Removed { path }] if path == "[outside-vault]"));
    let p = payloads_for(&WatchEvent::Rename { old: "/v/a.md".into(), new: "/v/b.md".into() }, "/v");
    assert!(matches!(&p[..], [WatchEventPayload::Removed { path: o }, WatchEventPayload::Created { path: n }] if o == "a.md" && n == "b.md"));
    let p = payloads_for(&WatchEvent::BulkChange { count: 12 }, "/v");
    assert!(matches!(&p[..], [WatchEventPayload::BulkChange { count: 12 }]));
}

#[test]
fn sync_actions_for_each_event() {
    let a = sync_actions_for(&WatchEvent::Created("/v/a.md".into()), "/v");
    assert!(matches!(&a[..], [SyncAction::Reindex(p)] if p == "a.md"));
    let a = sync_actions_for(&WatchEvent::Modified("/v/dir".into()), "/v");
    assert!(a.is_empty());
    let a = sync_actions_for(&WatchEvent::Removed("/v/a.md".into()), "/v");
    assert!(matches!(&a[..], [SyncAction::Remove(p), SyncAction::Commit] if p == "a.md"));
    let a = sync_actions_for(&WatchEvent::Rename { old: "/v/a.md".into(), new: "/v/b.md".into() }, "/v");
    assert!(matches!(&a[..], [SyncAction::Remove(o), SyncAction::Reindex(n), SyncAction::Commit] if o == "a.md" && n == "b.md"));
    let a = sync_actions_for(&WatchEvent::Rename { old: "/v/a.txt".into(), new: "/v/b.md".into() }, "/v");
    assert!(matches!(&a[..], [SyncAction::Reindex(n), SyncAction::Commit] if n == "b.md"));
    let a = sync_actions_for(&WatchEvent::Rename { old: "/v/a".into(), new: "/v/b".into() }, "/v");
    assert!(a.is_empty());
    let a = sync_actions_for(&WatchEvent::BulkChange { count: 20 }, "/v");
    assert!(matches!(&a[..], [SyncAction::Rebuild]));
}

#[test]
fn stale_paths_are_the_vanished_ones() {
    let before = vec!["a.md".to_string(), "b.md".to_string(), "c.md".to_string()];
    let after = vec!["c.md".to_string(), "a.md".to_string()];
    assert_eq!(stale_paths(&before, &after), vec!["b.md".to_string()]);
    assert!(stale_paths(&after, &before).is_empty());
}

#[test]
fn watch_steps_sync_before_emitting() {
    let steps = watch_steps(&WatchEvent::Rename { old: "/v/a.md".into(), new: "/v/b.md".into() }, "/v");
    assert_eq!(steps.len(), 5);
    assert!(matches!(&steps[0], WatchStep::Apply(SyncAction::Remove(p)) if p == "a.md"));
    assert!(matches!(&steps[1], WatchStep::Apply(SyncAction::Reindex(p)) if p == "b.md"));
    assert!(matches!(&steps[2], WatchStep::Apply(SyncAction::Commit)));
    assert!(matches!(&steps[3], WatchStep::Emit(WatchEventPayload::Removed { path }) if path == "a.md"));
    assert!(matches!(&steps[4], WatchStep::Emit(WatchEventPayload::Created { path }) if path == "b.md"));
    let steps = watch_steps(&WatchEvent::Modified("/v/pic.png".into()), "/v");
    assert_eq!(steps.len(), 1);
    assert!(matches!(&steps[0], WatchStep::Emit(WatchEventPayload::Modified { path }) if path == "pic.png"));
}

#[test]
fn stripped_paths_rejoin_to_the_original() {
    for (abs, root) in [("/v/sub/a.md", "/v"), ("/v//sub/./a.md", "/v/"), ("/v", "/v")] {
        let rel = strip_vault_prefix(abs, root);
        assert!(!rel.starts_with('/'));
        assert_eq!(std::path::Path::new(root).join(&rel), std::path::Path::new(abs));
    }
}
