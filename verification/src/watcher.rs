//! The decisions of the file-system watcher: which raw notifications
//! matter, how the changes seen within one debounce window are coalesced,
//! and what is emitted when the window closes.
//!
//! The watching itself and the debounce timing are I/O; they run outside
//! this library and call these functions.
use vstd::prelude::*;

use crate::path::{
    hidden, is_hidden, is_markdown_any_case, markdown_path_any_case, strip_path_prefix,
    strip_prefix_path,
};
use crate::text::to_chars;

verus! {

/// `notify::Error`, carried through unchanged.
#[verifier::external_type_specification]
#[verifier::external_body]
pub struct ExNotifyError(notify::Error);

/// The text of a `notify::Error` (its `Display`). The contract states
/// nothing of it: it carries the text of operating-system errors.
#[verifier::external_body]
fn notify_error_text(e: &notify::Error) -> String {
    e.to_string()
}

/// An error of the file-system watcher.
pub enum VaultWatcherError {
    Notify(notify::Error),
    Io(std::io::Error),
}

impl VaultWatcherError {
    /// The error's message: `notify error: {error}` or
    /// `watcher I/O error: {error}`.
    pub fn message(&self) -> (r: String)
        ensures
            self matches VaultWatcherError::Notify(_) ==> exists|t: Seq<char>| r@ == "notify error: "@ + t,
            self matches VaultWatcherError::Io(_) ==> exists|t: Seq<char>| r@ == "watcher I/O error: "@ + t,
    {
        match self {
            VaultWatcherError::Notify(e) => {
                let t = notify_error_text(e);
                let mut r = String::from_str("notify error: ");
                r.append(t.as_str());
                r
            },
            VaultWatcherError::Io(e) => {
                let t = crate::os_error::io_error_text(e);
                let mut r = String::from_str("watcher I/O error: ");
                r.append(t.as_str());
                r
            },
        }
    }
}


/// A change reported to the watcher's subscriber (absolute paths).
pub enum WatchEvent {
    Created(String),
    Modified(String),
    Removed(String),
    Rename { old: String, new: String },
    /// Signals a large batch — the subscriber should re-index everything.
    BulkChange { count: usize },
}

/// A change seen within a debounce window.
pub enum RawEvent {
    Created(String),
    Modified(String),
    Removed(String),
    Renamed { old: String, new: String },
}

/// The mathematical value of a [`RawEvent`].
pub enum RawEventV {
    Created(Seq<char>),
    Modified(Seq<char>),
    Removed(Seq<char>),
    Renamed { old: Seq<char>, new: Seq<char> },
}

impl View for RawEvent {
    type V = RawEventV;

    open spec fn view(&self) -> RawEventV {
        match self {
            RawEvent::Created(p) => RawEventV::Created(p@),
            RawEvent::Modified(p) => RawEventV::Modified(p@),
            RawEvent::Removed(p) => RawEventV::Removed(p@),
            RawEvent::Renamed { old, new } => RawEventV::Renamed { old: old@, new: new@ },
        }
    }
}

/// The mathematical value of a [`WatchEvent`].
pub enum WatchEventV {
    Created(Seq<char>),
    Modified(Seq<char>),
    Removed(Seq<char>),
    Rename { old: Seq<char>, new: Seq<char> },
    BulkChange { count: nat },
}

impl View for WatchEvent {
    type V = WatchEventV;

    open spec fn view(&self) -> WatchEventV {
        match self {
            WatchEvent::Created(p) => WatchEventV::Created(p@),
            WatchEvent::Modified(p) => WatchEventV::Modified(p@),
            WatchEvent::Removed(p) => WatchEventV::Removed(p@),
            WatchEvent::Rename { old, new } => WatchEventV::Rename { old: old@, new: new@ },
            WatchEvent::BulkChange { count } => WatchEventV::BulkChange { count: *count as nat },
        }
    }
}

/// A copy of a raw event.
pub fn copy_raw(e: &RawEvent) -> (r: RawEvent)
    ensures
        r@ == e@,
{
    match e {
        RawEvent::Created(p) => RawEvent::Created(p.clone()),
        RawEvent::Modified(p) => RawEvent::Modified(p.clone()),
        RawEvent::Removed(p) => RawEvent::Removed(p.clone()),
        RawEvent::Renamed { old, new } => RawEvent::Renamed { old: old.clone(), new: new.clone() },
    }
}

// ---------------------------------------------------------------------------
// Classifying notifications
// ---------------------------------------------------------------------------

/// The kind of a notification of the file-system watcher.
pub enum NotifyKind {
    Create,
    /// A rename reported with both paths.
    RenameBoth,
    /// The old name of a rename reported in two parts.
    RenameFrom,
    /// The new name of a rename reported in two parts.
    RenameTo,
    /// A rename reported with a single, ambiguous path.
    RenameAny,
    /// Any other modification.
    Modify,
    Remove,
    /// Access and other notifications.
    Other,
}

/// The kind of change a notification counts as.
pub enum RawEventKind {
    Create,
    Modify,
    Remove,
    Rename,
}

/// The change a notification counts as: a rename with both paths is a
/// rename, its old-name half a removal, its new-name half a creation, an
/// ambiguous rename a modification; other notifications are ignored.
pub open spec fn kind_of(k: NotifyKind) -> Option<RawEventKind> {
    match k {
        NotifyKind::Create => Some(RawEventKind::Create),
        NotifyKind::RenameBoth => Some(RawEventKind::Rename),
        NotifyKind::RenameFrom => Some(RawEventKind::Remove),
        NotifyKind::RenameTo => Some(RawEventKind::Create),
        NotifyKind::RenameAny => Some(RawEventKind::Modify),
        NotifyKind::Modify => Some(RawEventKind::Modify),
        NotifyKind::Remove => Some(RawEventKind::Remove),
        NotifyKind::Other => None,
    }
}

/// A path worth reporting: inside the vault root, not hidden, and a
/// Markdown file (any case of `md`) or a directory.
pub open spec fn path_relevant(p: Seq<char>, root: Seq<char>, is_dir: bool) -> bool {
    strip_prefix_path(p, root) is Some && !is_hidden(p) && (is_markdown_any_case(p) || is_dir)
}

/// A rename worth reporting: both paths inside the root and not hidden,
/// and one of them a Markdown file.
pub open spec fn rename_relevant(old: Seq<char>, new: Seq<char>, root: Seq<char>) -> bool {
    &&& strip_prefix_path(old, root) is Some
    &&& strip_prefix_path(new, root) is Some
    &&& !is_hidden(old)
    &&& !is_hidden(new)
    &&& (is_markdown_any_case(old) || is_markdown_any_case(new))
}

/// The raw event of kind `k` for path `p` (a rename is not reported per path).
pub open spec fn raw_for(k: RawEventKind, p: Seq<char>) -> RawEventV {
    match k {
        RawEventKind::Create => RawEventV::Created(p),
        RawEventKind::Modify => RawEventV::Modified(p),
        _ => RawEventV::Removed(p),
    }
}

/// The events for each relevant path, in order.
pub open spec fn per_path(k: RawEventKind, paths: Seq<Seq<char>>, dirs: Seq<bool>, root: Seq<char>) -> Seq<
    RawEventV,
>
    decreases paths.len(),
{
    if paths.len() == 0 {
        seq![]
    } else {
        let prev = per_path(k, paths.drop_last(), dirs, root);
        let i = paths.len() - 1;
        if path_relevant(paths[i], root, dirs[i]) {
            prev.push(raw_for(k, paths[i]))
        } else {
            prev
        }
    }
}

/// The raw events of one notification: a two-path rename gives one rename
/// event when relevant; otherwise each relevant path gives an event of the
/// notification's kind.
pub open spec fn notification_events(
    k: NotifyKind,
    paths: Seq<Seq<char>>,
    dirs: Seq<bool>,
    root: Seq<char>,
) -> Seq<RawEventV> {
    match kind_of(k) {
        None => seq![],
        Some(kind) => if kind == RawEventKind::Rename && paths.len() >= 2 {
            if rename_relevant(paths[0], paths[1], root) {
                seq![RawEventV::Renamed { old: paths[0], new: paths[1] }]
            } else {
                seq![]
            }
        } else {
            per_path(kind, paths, dirs, root)
        },
    }
}

/// The notifications that cannot be classified: a rename with fewer than
/// two paths, one of which is relevant.
pub open spec fn unclassifiable(k: NotifyKind, paths: Seq<Seq<char>>, dirs: Seq<bool>, root: Seq<char>) -> bool {
    &&& kind_of(k) == Some(RawEventKind::Rename)
    &&& paths.len() < 2
    &&& exists|i: int| 0 <= i < paths.len() && path_relevant(paths[i], root, dirs[i])
}

/// Whether path `p` is inside `root`.
fn inside(p: &Vec<char>, root: &Vec<char>) -> (r: bool)
    ensures
        r == (strip_prefix_path(p@, root@) is Some),
{
    strip_path_prefix(p, root).is_some()
}

/// Whether kind `k` counts as a rename.
fn is_rename(k: &RawEventKind) -> (r: bool)
    ensures
        r == (*k == RawEventKind::Rename),
{
    match k {
        RawEventKind::Rename => true,
        _ => false,
    }
}

/// Whether a notification can be classified: every notification but a
/// rename reported with fewer than two paths of which one is relevant.
pub fn classifiable(kind: &NotifyKind, paths: &Vec<String>, is_dir: &Vec<bool>, root: &str) -> (r: bool)
    requires
        is_dir@.len() == paths@.len(),
    ensures
        r == !unclassifiable(*kind, crate::frontmatter::strs(paths@), is_dir@, root@),
{
    let ghost ps = crate::frontmatter::strs(paths@);
    match kind {
        NotifyKind::RenameBoth => {},
        _ => {
            return true;
        },
    }
    if paths.len() >= 2 {
        return true;
    }
    let rt = to_chars(root);
    let mut i: usize = 0;
    while i < paths.len()
        invariant
            i <= paths.len() == is_dir@.len(),
            ps == crate::frontmatter::strs(paths@),
            rt@ == root@,
            *kind matches NotifyKind::RenameBoth,
            paths.len() < 2,
            forall|j: int| 0 <= j < i ==> !path_relevant(ps[j], root@, is_dir@[j]),
        decreases paths.len() - i,
    {
        let p = to_chars(paths[i].as_str());
        assert(ps[i as int] == p@);
        if inside(&p, &rt) && !hidden(&p) && (markdown_path_any_case(&p) || is_dir[i]) {
            assert(path_relevant(ps[i as int], root@, is_dir@[i as int]));
            return false;
        }
        i += 1;
    }
    true
}

/// Processes a notification: filters hidden, non-Markdown and outside
/// paths and returns the raw events to coalesce. `is_dir[i]` tells whether
/// `paths[i]` is a directory.
pub fn handle_notify_event(kind: NotifyKind, paths: &Vec<String>, is_dir: &Vec<bool>, root: &str) -> (r: Vec<RawEvent>)
    requires
        is_dir@.len() == paths@.len(),
        !unclassifiable(kind, crate::frontmatter::strs(paths@), is_dir@, root@),
    ensures
        r@.map_values(|e: RawEvent| e@) == notification_events(
            kind,
            crate::frontmatter::strs(paths@),
            is_dir@,
            root@,
        ),
{
    let ghost ps = crate::frontmatter::strs(paths@);
    let rt = to_chars(root);
    let k = match kind {
        NotifyKind::Create => RawEventKind::Create,
        NotifyKind::RenameBoth => RawEventKind::Rename,
        NotifyKind::RenameFrom => RawEventKind::Remove,
        NotifyKind::RenameTo => RawEventKind::Create,
        NotifyKind::RenameAny => RawEventKind::Modify,
        NotifyKind::Modify => RawEventKind::Modify,
        NotifyKind::Remove => RawEventKind::Remove,
        NotifyKind::Other => {
            let r: Vec<RawEvent> = Vec::new();
            assert(r@.map_values(|e: RawEvent| e@) =~= Seq::<RawEventV>::empty());
            return r;
        },
    };
    assert(kind_of(kind) == Some(k));
    let mut r: Vec<RawEvent> = Vec::new();
    if is_rename(&k) && paths.len() >= 2 {
        let old = to_chars(paths[0].as_str());
        let new = to_chars(paths[1].as_str());
        assert(ps[0] == old@ && ps[1] == new@);
        if inside(&old, &rt) && inside(&new, &rt) && !hidden(&old) && !hidden(&new) && (
        markdown_path_any_case(&old) || markdown_path_any_case(&new)) {
            r.push(RawEvent::Renamed { old: paths[0].clone(), new: paths[1].clone() });
        }
        assert(r@.map_values(|e: RawEvent| e@) =~= notification_events(kind, ps, is_dir@, root@));
        return r;
    }
    let mut i: usize = 0;
    assert(ps.take(0) =~= Seq::<Seq<char>>::empty());
    while i < paths.len()
        invariant
            i <= paths.len() == is_dir@.len(),
            ps == crate::frontmatter::strs(paths@),
            rt@ == root@,
            kind_of(kind) == Some(k),
            !(k == RawEventKind::Rename && paths.len() >= 2),
            !unclassifiable(kind, ps, is_dir@, root@),
            r@.map_values(|e: RawEvent| e@) == per_path(k, ps.take(i as int), is_dir@, root@),
        decreases paths.len() - i,
    {
        assert(ps.take(i + 1).drop_last() =~= ps.take(i as int));
        assert(ps.take(i + 1)[i as int] == ps[i as int]);
        let p = to_chars(paths[i].as_str());
        assert(ps[i as int] == p@);
        if inside(&p, &rt) && !hidden(&p) && (markdown_path_any_case(&p) || is_dir[i]) {
            let ghost before = r@.map_values(|e: RawEvent| e@);
            assert(k != RawEventKind::Rename);
            let e = match k {
                RawEventKind::Create => RawEvent::Created(paths[i].clone()),
                RawEventKind::Modify => RawEvent::Modified(paths[i].clone()),
                _ => RawEvent::Removed(paths[i].clone()),
            };
            r.push(e);
            assert(r@.map_values(|e: RawEvent| e@) =~= before.push(raw_for(k, ps[i as int])));
        }
        i += 1;
    }
    assert(ps.take(paths.len() as int) =~= ps);
    r
}

// ---------------------------------------------------------------------------
// Coalescing
// ---------------------------------------------------------------------------

/// The path an event is filed under (the old path of a rename).
pub open spec fn event_key(e: RawEventV) -> Seq<char> {
    match e {
        RawEventV::Created(p) => p,
        RawEventV::Modified(p) => p,
        RawEventV::Removed(p) => p,
        RawEventV::Renamed { old, .. } => old,
    }
}

/// What stays when `new` arrives for a path that already has `existing`:
/// a creation absorbs a later modification, repeated modifications are
/// kept once, and otherwise the new event replaces the old.
pub open spec fn coalesce(existing: RawEventV, new: RawEventV) -> RawEventV {
    match (existing, new) {
        (RawEventV::Created(_), RawEventV::Modified(_)) => existing,
        (RawEventV::Modified(_), RawEventV::Modified(_)) => existing,
        _ => new,
    }
}

/// The position of the entry for path `k`.
pub open spec fn pending_pos(m: Seq<(Seq<char>, RawEventV)>, k: Seq<char>) -> Option<int>
    decreases m.len(),
{
    if m.len() == 0 {
        None
    } else if m[0].0 == k {
        Some(0)
    } else {
        crate::text::shift(pending_pos(m.drop_first(), k), 1)
    }
}

/// The pending changes after `e` arrives.
pub open spec fn pending_insert(m: Seq<(Seq<char>, RawEventV)>, e: RawEventV) -> Seq<(Seq<char>, RawEventV)> {
    let k = event_key(e);
    match pending_pos(m, k) {
        Some(i) => m.update(i, (k, coalesce(m[i].1, e))),
        None => m.push((k, e)),
    }
}

/// Values of pending entries.
pub open spec fn pending_views(v: Seq<(String, RawEvent)>) -> Seq<(Seq<char>, RawEventV)> {
    v.map_values(|e: (String, RawEvent)| (e.0@, e.1@))
}

/// The path an event is filed under.
fn key_of(e: &RawEvent) -> (r: String)
    ensures
        r@ == event_key(e@),
{
    match e {
        RawEvent::Created(p) => p.clone(),
        RawEvent::Modified(p) => p.clone(),
        RawEvent::Removed(p) => p.clone(),
        RawEvent::Renamed { old, .. } => old.clone(),
    }
}

/// Inserts a raw event into the pending changes, coalescing it with the
/// change already pending for its path.
pub fn insert_coalesced(map: &mut Vec<(String, RawEvent)>, event: RawEvent)
    ensures
        pending_views(final(map)@) == pending_insert(pending_views(old(map)@), event@),
{
    let key = key_of(&event);
    let ghost kv = key@;
    let ghost mv = pending_views(map@);
    let ghost ev = event@;
    let mut i: usize = 0;
    assert(mv.subrange(0, mv.len() as int) =~= mv);
    while i < map.len()
        invariant
            i <= map.len(),
            mv == pending_views(map@),
            mv == pending_views(old(map)@),
            kv == key@,
            kv == event_key(ev),
            ev == event@,
            pending_pos(mv, kv) == crate::text::shift(
                pending_pos(mv.subrange(i as int, mv.len() as int), kv),
                i as int,
            ),
        decreases map.len() - i,
    {
        assert(mv[i as int] == (map@[i as int].0@, map@[i as int].1@));
        if map[i].0 == key {
            assert(mv.subrange(i as int, mv.len() as int)[0] == mv[i as int]);
            assert(pending_pos(mv, kv) == Some(i as int));
            let keep = match (&map[i].1, &event) {
                (RawEvent::Created(_), RawEvent::Modified(_)) => true,
                (RawEvent::Modified(_), RawEvent::Modified(_)) => true,
                _ => false,
            };
            if keep {
                let existing = copy_raw(&map[i].1);
                map.set(i, (key, existing));
            } else {
                map.set(i, (key, event));
            }
            assert(pending_views(map@) =~= pending_insert(mv, ev));
            return;
        }
        assert(mv.subrange(i as int, mv.len() as int).drop_first() =~= mv.subrange(
            i + 1,
            mv.len() as int,
        ));
        i += 1;
    }
    map.push((key, event));
    assert(pending_views(map@) =~= pending_insert(mv, ev));
}

/// The event emitted for a pending change.
pub open spec fn emitted(e: RawEventV) -> WatchEventV {
    match e {
        RawEventV::Created(p) => WatchEventV::Created(p),
        RawEventV::Modified(p) => WatchEventV::Modified(p),
        RawEventV::Removed(p) => WatchEventV::Removed(p),
        RawEventV::Renamed { old, new } => WatchEventV::Rename { old, new },
    }
}

/// The most changes emitted one by one when a debounce window closes.
pub const BULK_THRESHOLD: usize = 10;

/// What a closing debounce window emits: nothing when nothing changed, a
/// single bulk change with the number of paths when more than
/// `BULK_THRESHOLD` paths changed, and otherwise one event per path.
pub open spec fn flushed(m: Seq<(Seq<char>, RawEventV)>) -> Seq<WatchEventV> {
    if m.len() == 0 {
        seq![]
    } else if m.len() > BULK_THRESHOLD {
        seq![WatchEventV::BulkChange { count: m.len() }]
    } else {
        m.map_values(|e: (Seq<char>, RawEventV)| emitted(e.1))
    }
}

/// The events to emit for the changes collected in one debounce window.
pub fn flush_pending(pending: &Vec<(String, RawEvent)>) -> (r: Vec<WatchEvent>)
    ensures
        r@.map_values(|e: WatchEvent| e@) == flushed(pending_views(pending@)),
{
    let ghost mv = pending_views(pending@);
    let mut r: Vec<WatchEvent> = Vec::new();
    if pending.len() == 0 {
        assert(r@.map_values(|e: WatchEvent| e@) =~= flushed(mv));
        return r;
    }
    if pending.len() > BULK_THRESHOLD {
        r.push(WatchEvent::BulkChange { count: pending.len() });
        assert(r@.map_values(|e: WatchEvent| e@) =~= flushed(mv));
        return r;
    }
    let mut i: usize = 0;
    while i < pending.len()
        invariant
            i <= pending.len() <= BULK_THRESHOLD,
            pending.len() > 0,
            mv == pending_views(pending@),
            r@.len() == i,
            r@.map_values(|e: WatchEvent| e@) == mv.map_values(
                |e: (Seq<char>, RawEventV)| emitted(e.1),
            ).take(i as int),
        decreases pending.len() - i,
    {
        assert(mv[i as int] == (pending@[i as int].0@, pending@[i as int].1@));
        let e = match &pending[i].1 {
            RawEvent::Created(p) => WatchEvent::Created(p.clone()),
            RawEvent::Modified(p) => WatchEvent::Modified(p.clone()),
            RawEvent::Removed(p) => WatchEvent::Removed(p.clone()),
            RawEvent::Renamed { old, new } => WatchEvent::Rename { old: old.clone(), new: new.clone() },
        };
        r.push(e);
        assert(r@.map_values(|e: WatchEvent| e@) =~= mv.map_values(
            |e: (Seq<char>, RawEventV)| emitted(e.1),
        ).take(i + 1));
        i += 1;
    }
    assert(mv.map_values(|e: (Seq<char>, RawEventV)| emitted(e.1)).take(pending.len() as int)
        =~= mv.map_values(|e: (Seq<char>, RawEventV)| emitted(e.1)));
    r
}

// ---------------------------------------------------------------------------
// Laws
// ---------------------------------------------------------------------------

/// Facts about `pending_pos`.
pub proof fn lemma_pending_pos(m: Seq<(Seq<char>, RawEventV)>, k: Seq<char>)
    ensures
        pending_pos(m, k) matches Some(i) ==> 0 <= i < m.len() && m[i].0 == k,
        pending_pos(m, k) is None ==> forall|j: int| 0 <= j < m.len() ==> m[j].0 != k,
    decreases m.len(),
{
    if m.len() > 0 && m[0].0 != k {
        lemma_pending_pos(m.drop_first(), k);
        assert forall|j: int| 1 <= j < m.len() implies m[j] == m.drop_first()[j - 1] by {}
    }
}

/// No two pending entries share a path.
pub open spec fn pending_unique(m: Seq<(Seq<char>, RawEventV)>) -> bool {
    forall|a: int, b: int| 0 <= a < b < m.len() ==> #[trigger] m[a].0 != #[trigger] m[b].0
}

/// Coalescing keeps one pending entry per path.
pub proof fn law_coalesce_unique(m: Seq<(Seq<char>, RawEventV)>, e: RawEventV)
    requires
        pending_unique(m),
    ensures
        pending_unique(pending_insert(m, e)),
        pending_insert(m, e).len() <= m.len() + 1,
{
    lemma_pending_pos(m, event_key(e));
    let next = pending_insert(m, e);
    assert forall|a: int, b: int| 0 <= a < b < next.len() implies #[trigger] next[a].0
        != #[trigger] next[b].0 by {
        if b == m.len() {
            assert(next[a] == m[a]);
        } else {
            assert(next[a].0 == m[a].0 && next[b].0 == m[b].0);
        }
    }
}

/// Receiving the same change twice in one window is the same as receiving
/// it once.
pub proof fn law_coalesce_idempotent(m: Seq<(Seq<char>, RawEventV)>, e: RawEventV)
    ensures
        pending_insert(pending_insert(m, e), e) == pending_insert(m, e),
{
    let k = event_key(e);
    lemma_pending_pos(m, k);
    let once = pending_insert(m, e);
    match pending_pos(m, k) {
        Some(i) => {
            assert forall|j: int| 0 <= j < i implies once[j].0 != k by {
                assert(once[j] == m[j]);
                lemma_first_pos(m, k, i, j);
            }
            lemma_pending_pos_at(once, k, i);
            assert(pending_insert(once, e) =~= once);
        },
        None => {
            lemma_pending_pos_at(once, k, m.len() as int);
            assert(pending_insert(once, e) =~= once);
        },
    }
}

/// Positions before the first match do not match.
proof fn lemma_first_pos(m: Seq<(Seq<char>, RawEventV)>, k: Seq<char>, i: int, j: int)
    requires
        pending_pos(m, k) == Some(i),
        0 <= j < i,
    ensures
        m[j].0 != k,
    decreases m.len(),
{
    lemma_pending_pos(m, k);
    if m.len() > 0 && m[0].0 != k {
        if j > 0 {
            lemma_first_pos(m.drop_first(), k, i - 1, j - 1);
            assert(m[j] == m.drop_first()[j - 1]);
        }
    }
}

/// The first entry for `k` sits at `i`.
proof fn lemma_pending_pos_at(m: Seq<(Seq<char>, RawEventV)>, k: Seq<char>, i: int)
    requires
        0 <= i < m.len(),
        m[i].0 == k,
        forall|j: int| 0 <= j < i ==> m[j].0 != k,
    ensures
        pending_pos(m, k) == Some(i),
    decreases m.len(),
{
    if i > 0 {
        assert forall|j: int| 0 <= j < i - 1 implies m.drop_first()[j].0 != k by {
            assert(m.drop_first()[j] == m[j + 1]);
        }
        lemma_pending_pos_at(m.drop_first(), k, i - 1);
    }
}

/// The change pending for path `k`, if any.
pub open spec fn pending_get(m: Seq<(Seq<char>, RawEventV)>, k: Seq<char>) -> Option<RawEventV> {
    match pending_pos(m, k) {
        Some(i) => Some(m[i].1),
        None => None,
    }
}

/// Lists with the same paths at the same positions find a path at the
/// same position.
proof fn lemma_pending_pos_same_keys(m1: Seq<(Seq<char>, RawEventV)>, m2: Seq<(Seq<char>, RawEventV)>, k: Seq<char>)
    requires
        m1.len() == m2.len(),
        forall|j: int| 0 <= j < m1.len() ==> m1[j].0 == m2[j].0,
    ensures
        pending_pos(m1, k) == pending_pos(m2, k),
    decreases m1.len(),
{
    if m1.len() > 0 {
        assert forall|j: int| 0 <= j < m1.drop_first().len() implies m1.drop_first()[j].0
            == m2.drop_first()[j].0 by {
            assert(m1.drop_first()[j] == m1[j + 1] && m2.drop_first()[j] == m2[j + 1]);
        }
        lemma_pending_pos_same_keys(m1.drop_first(), m2.drop_first(), k);
        assert(m1[0].0 == m2[0].0);
    }
}

/// Appending an entry for another path does not move a path's position.
proof fn lemma_pending_pos_push(m: Seq<(Seq<char>, RawEventV)>, x: (Seq<char>, RawEventV), k: Seq<char>)
    requires
        k != x.0,
    ensures
        pending_pos(m.push(x), k) == pending_pos(m, k),
    decreases m.len(),
{
    if m.len() == 0 {
        let one = m.push(x);
        assert(one.drop_first() =~= Seq::<(Seq<char>, RawEventV)>::empty());
        assert(one[0] == x);
    } else {
        assert(m.push(x).drop_first() =~= m.drop_first().push(x));
        assert(m.push(x)[0] == m[0]);
        lemma_pending_pos_push(m.drop_first(), x, k);
    }
}

/// The rules of coalescing, per path. A change arriving for a path that is
/// not a modification becomes the pending change of that path, whatever
/// was pending (a removal followed by a creation leaves the creation). A
/// modification is absorbed by a pending creation or modification, and is
/// otherwise pending itself. Every other path keeps its pending change.
pub proof fn law_coalesce_rules(m: Seq<(Seq<char>, RawEventV)>, e: RawEventV, k: Seq<char>)
    ensures
        !(e is Modified) ==> pending_get(pending_insert(m, e), event_key(e)) == Some(e),
        e is Modified ==> pending_get(pending_insert(m, e), event_key(e)) == (match pending_get(m, event_key(e)) {
            Some(RawEventV::Created(q)) => Some(RawEventV::Created(q)),
            Some(RawEventV::Modified(q)) => Some(RawEventV::Modified(q)),
            _ => Some(e),
        }),
        k != event_key(e) ==> pending_get(pending_insert(m, e), k) == pending_get(m, k),
{
    let key = event_key(e);
    let next = pending_insert(m, e);
    lemma_pending_pos(m, key);
    match pending_pos(m, key) {
        Some(i) => {
            assert forall|j: int| 0 <= j < i implies next[j].0 != key by {
                assert(next[j] == m[j]);
                lemma_first_pos(m, key, i, j);
            }
            lemma_pending_pos_at(next, key, i);
            assert forall|j: int| 0 <= j < m.len() implies m[j].0 == next[j].0 by {}
            lemma_pending_pos_same_keys(m, next, k);
            if k != key {
                lemma_pending_pos(m, k);
                if let Some(j) = pending_pos(m, k) {
                    assert(j != i);
                    assert(next[j] == m[j]);
                }
            }
        },
        None => {
            lemma_pending_pos_at(next, key, m.len() as int);
            if k != key {
                lemma_pending_pos_push(m, (key, e), k);
                lemma_pending_pos(m, k);
                if let Some(j) = pending_pos(m, k) {
                    assert(next[j] == m[j]);
                }
            }
        },
    }
}

} // verus!
