//! The vault: its root, its file tree, and the lock file that gives one
//! process exclusive access to it.
//!
//! Acquiring the lock alternates file-system work with decisions; the
//! decisions are made here, one step at a time, by [`check_existing_lock`]
//! and [`after_create`].
use vstd::prelude::*;

use crate::os_error::{decimal, decimal_string, io_error_text};
use crate::text::{from_chars, to_chars};

verus! {

/// An entry of the vault's directory tree.
pub enum TreeEntry {
    File { name: String },
    Dir { name: String, children: Vec<TreeEntry> },
}

/// Manages the note vault — a directory tree of Markdown files.
pub struct VaultManager {
    root: String,
}

impl VaultManager {
    /// A manager for the vault rooted at `root`.
    pub fn new(root: String) -> (r: VaultManager)
        ensures
            r.root_path() == root@,
    {
        VaultManager { root }
    }

    /// The vault root, as given.
    pub closed spec fn root_path(&self) -> Seq<char> {
        self.root@
    }

    /// The vault root path.
    pub fn root(&self) -> (r: &str)
        ensures
            r@ == self.root_path(),
    {
        self.root.as_str()
    }
}

// ---------------------------------------------------------------------------
// Lock
// ---------------------------------------------------------------------------

/// Error returned when vault lock acquisition fails.
pub enum LockError {
    /// Another live process holds the lock.
    AlreadyLocked { pid: u32, host: String },
    /// An I/O error occurred.
    Io(std::io::Error),
}

impl LockError {
    /// The error's message: `vault locked by pid {pid} on {host}` or
    /// `lock I/O error: {error}`.
    pub fn message(&self) -> (r: String)
        ensures
            self matches LockError::AlreadyLocked { pid, host } ==> r@ == "vault locked by pid "@
                + decimal(pid as nat) + " on "@ + host@,
            self matches LockError::Io(_) ==> exists|t: Seq<char>| r@ == "lock I/O error: "@ + t,
    {
        match self {
            LockError::AlreadyLocked { pid, host } => {
                let mut r = String::from_str("vault locked by pid ");
                let n = decimal_string(*pid as u64);
                r.append(n.as_str());
                r.append(" on ");
                r.append(host.as_str());
                r
            },
            LockError::Io(e) => {
                let t = io_error_text(e);
                let mut r = String::from_str("lock I/O error: ");
                r.append(t.as_str());
                r
            },
        }
    }
}

/// Exclusive lock on a vault directory; the lock file is removed when the
/// lock is released.
pub struct VaultLock {
    path: String,
    held: bool,
}

/// The name of the lock file in the vault root.
pub open spec fn lock_file_name() -> Seq<char> {
    ".vault-lock"@
}

/// `vault` joined with the lock file name (`Path::join`): a `/` is put
/// between them unless `vault` is empty or already ends with one.
pub open spec fn lock_path_of(vault: Seq<char>) -> Seq<char> {
    if vault.len() == 0 || vault.last() == '/' {
        vault + lock_file_name()
    } else {
        vault + seq!['/'] + lock_file_name()
    }
}

impl VaultLock {
    /// The lock file path.
    pub closed spec fn file(&self) -> Seq<char> {
        self.path@
    }

    /// Whether the lock is held.
    pub closed spec fn holds(&self) -> bool {
        self.held
    }

    /// Path to the lock file for a given vault root.
    pub fn lock_path(vault_path: &str) -> (r: String)
        ensures
            r@ == lock_path_of(vault_path@),
    {
        let v = to_chars(vault_path);
        let mut r = String::from_str(vault_path);
        if !(v.len() == 0 || v[v.len() - 1] == '/') {
            r.append("/");
            proof {
                reveal_strlit("/");
            }
            assert("/"@ =~= seq!['/']);
        }
        r.append(".vault-lock");
        r
    }

    /// The lock, held, whose file is at `path`.
    pub fn acquired(path: String) -> (r: VaultLock)
        ensures
            r.file() == path@,
            r.holds(),
    {
        VaultLock { path, held: true }
    }

    /// The lock file path.
    pub fn path(&self) -> (r: &str)
        ensures
            r@ == self.file(),
    {
        self.path.as_str()
    }

    /// Whether the lock is currently held.
    pub fn is_held(&self) -> (r: bool)
        ensures
            r == self.holds(),
    {
        self.held
    }

    /// Releases the lock: afterwards it is not held. Returns whether the
    /// lock file is to be deleted now, which is only when the lock was held;
    /// releasing again is a no-op.
    pub fn release(&mut self) -> (remove_file: bool)
        ensures
            remove_file == old(self).holds(),
            !final(self).holds(),
            final(self).file() == old(self).file(),
    {
        if self.held {
            self.held = false;
            true
        } else {
            false
        }
    }
}

/// What the lock file holds when acquisition looks at it.
pub enum LockFileState {
    /// There is no lock file.
    Missing,
    /// A readable lock written by process `pid` on `host`; `alive` tells
    /// whether that process still runs.
    Owned { pid: u32, host: String, alive: bool },
    /// A lock file that cannot be read as a lock.
    Corrupt,
}

/// What to do about an existing lock file.
pub enum ExistingLockAction {
    /// Fail: a live process holds the lock.
    Locked { pid: u32, host: String },
    /// Remove the stale or corrupt lock file, then create a new one.
    RemoveStale,
    /// Create the lock file.
    Create,
}

/// Decides what to do about the lock file: a lock of a live process makes
/// acquisition fail, a lock of a dead process or an unreadable one is
/// removed, and with none the lock file is created.
pub fn check_existing_lock(state: LockFileState) -> (r: ExistingLockAction)
    ensures
        state matches LockFileState::Missing ==> r matches ExistingLockAction::Create,
        state matches LockFileState::Corrupt ==> r matches ExistingLockAction::RemoveStale,
        state matches LockFileState::Owned { alive, .. } ==> (alive <==> r matches ExistingLockAction::Locked { .. }),
        state matches LockFileState::Owned { alive, .. } ==> (!alive <==> r matches ExistingLockAction::RemoveStale),
        state matches LockFileState::Owned { pid, host, .. } ==> (r matches ExistingLockAction::Locked { pid: p, host: h } ==> p == pid && h@ == host@),
{
    match state {
        LockFileState::Missing => ExistingLockAction::Create,
        LockFileState::Corrupt => ExistingLockAction::RemoveStale,
        LockFileState::Owned { pid, host, alive } => {
            if alive {
                ExistingLockAction::Locked { pid, host }
            } else {
                ExistingLockAction::RemoveStale
            }
        },
    }
}

/// How creating the lock file (exclusively) went.
pub enum CreateResult {
    Created,
    /// Another process created it first.
    AlreadyExists,
    /// Any other failure.
    Failed,
}

/// What to do after trying to create the lock file.
pub enum CreateAction {
    /// The lock is ours.
    Done,
    /// Start the check-and-create sequence again.
    Retry,
    /// Give up with the creation error.
    Fail,
}

/// The number of check-and-create attempts.
pub const LOCK_ATTEMPTS: u32 = 3;

/// Decides what follows an attempt (numbered from 0) to create the lock
/// file: losing a race is retried while attempts remain; any other failure
/// is final.
pub fn after_create(result: CreateResult, attempt: u32) -> (r: CreateAction)
    ensures
        result matches CreateResult::Created ==> r matches CreateAction::Done,
        result matches CreateResult::AlreadyExists ==> (attempt + 1 < LOCK_ATTEMPTS <==> r matches CreateAction::Retry),
        result matches CreateResult::AlreadyExists ==> (attempt + 1 >= LOCK_ATTEMPTS <==> r matches CreateAction::Fail),
        result matches CreateResult::Failed ==> r matches CreateAction::Fail,
{
    match result {
        CreateResult::Created => CreateAction::Done,
        CreateResult::AlreadyExists => {
            if attempt < LOCK_ATTEMPTS - 1 {
                CreateAction::Retry
            } else {
                CreateAction::Fail
            }
        },
        CreateResult::Failed => CreateAction::Fail,
    }
}

/// The error once every attempt lost the race: locked by an unknown
/// process (`pid` 0, host `unknown`).
pub fn attempts_exhausted() -> (r: LockError)
    ensures
        r matches LockError::AlreadyLocked { pid, host } && pid == 0 && host@ == "unknown"@,
{
    LockError::AlreadyLocked { pid: 0, host: String::from_str("unknown") }
}

} // verus!
