use lontar::path::{is_indexable_path, is_markdown_path};
use lontar::vault::{
    after_create, attempts_exhausted, check_existing_lock, CreateAction, CreateResult,
    ExistingLockAction, LockError, LockFileState, VaultLock, VaultManager, LOCK_ATTEMPTS,
};

#[test]
fn manager_keeps_its_root() {
    let v = VaultManager::new("/srv/vault".to_string());
    assert_eq!(v.root(), "/srv/vault");
}

#[test]
fn lock_path_joins_the_root() {
    assert_eq!(VaultLock::lock_path("/srv/vault"), "/srv/vault/.vault-lock");
    assert_eq!(VaultLock::lock_path("/srv/vault/"), "/srv/vault/.vault-lock");
}

#[test]
fn test_release_state() {
    let mut lock = VaultLock::acquired(VaultLock::lock_path("/srv/vault"));
    assert!(lock.is_held());
    assert_eq!(lock.path(), "/srv/vault/.vault-lock");
    assert!(lock.release());
    assert!(!lock.is_held());
    assert!(!lock.release());
}

#[test]
fn existing_lock_decisions() {
    assert!(matches!(check_existing_lock(LockFileState::Missing), ExistingLockAction::Create));
    assert!(matches!(check_existing_lock(LockFileState::Corrupt), ExistingLockAction::RemoveStale));
    let live = LockFileState::Owned { pid: 42, host: "box".into(), alive: true };
    assert!(matches!(check_existing_lock(live), ExistingLockAction::Locked { pid: 42, host } if host == "box"));
    let dead = LockFileState::Owned { pid: 42, host: "box".into(), alive: false };
    assert!(matches!(check_existing_lock(dead), ExistingLockAction::RemoveStale));
}

#[test]
fn create_attempts() {
    assert!(matches!(after_create(CreateResult::Created, 0), CreateAction::Done));
    assert!(matches!(after_create(CreateResult::AlreadyExists, 0), CreateAction::Retry));
    assert!(matches!(after_create(CreateResult::AlreadyExists, LOCK_ATTEMPTS - 1), CreateAction::Fail));
    assert!(matches!(after_create(CreateResult::Failed, 0), CreateAction::Fail));
    assert!(matches!(attempts_exhausted(), LockError::AlreadyLocked { pid: 0, host } if host == "unknown"));
}

#[test]
fn lock_error_messages() {
    let e = LockError::AlreadyLocked { pid: 1234, host: "pi".into() };
    assert_eq!(e.message(), "vault locked by pid 1234 on pi");
    let e = LockError::Io(std::io::Error::new(std::io::ErrorKind::Other, "denied"));
    assert_eq!(e.message(), "lock I/O error: denied");
}

#[test]
fn which_files_are_notes() {
    assert!(is_markdown_path("a/b.md"));
    assert!(!is_markdown_path("a/b.MD"));
    assert!(!is_markdown_path("a/b.txt"));
    assert!(!is_markdown_path("a/.md"));
    assert!(is_indexable_path("notes/a.md"));
    assert!(!is_indexable_path(".trash/a.md"));
    assert!(!is_indexable_path("notes/.a.md"));
}

#[test]
fn leading_dot_component_counts_as_hidden() {
    assert!(!is_indexable_path("./a.md"));
    assert!(is_indexable_path("a/./b.md"));
    assert!(is_markdown_path("./a.md"));
    assert!(!is_markdown_path("a/."));
}
