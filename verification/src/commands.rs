//! The values and checks of the command layer: command errors, the file
//! tree and watcher payloads sent to the front end, path sanitising, and
//! dates in frontmatter turned into timestamps.
use vstd::prelude::*;

use crate::path::{components, is_rooted, strip_path_prefix, strip_prefix_path};
use crate::text::{first_index, from_chars, to_chars, trim, trimmed};
use crate::vault::TreeEntry;
use crate::watcher::{WatchEvent, WatchEventV};
use vstd::string::StringSliceAdditionalSpecFns;

verus! {

// ---------------------------------------------------------------------------
// CommandError
// ---------------------------------------------------------------------------

/// An error of a command.
pub enum CommandError {
    VaultNotOpen,
    IndexerNotReady,
    SearchNotReady,
    Vault(String),
    Indexer(String),
    Search(String),
    Watcher(String),
    Io(String),
}

/// The message of a command error.
pub open spec fn command_message(e: CommandError) -> Seq<char> {
    match e {
        CommandError::VaultNotOpen => "vault not open"@,
        CommandError::IndexerNotReady => "indexer not available — try rebuilding the index"@,
        CommandError::SearchNotReady => "search engine not available"@,
        CommandError::Vault(s) => "vault error: "@ + s@,
        CommandError::Indexer(s) => "indexer error: "@ + s@,
        CommandError::Search(s) => "search error: "@ + s@,
        CommandError::Watcher(s) => "watcher error: "@ + s@,
        CommandError::Io(s) => "io error: "@ + s@,
    }
}

/// `prefix` followed by `s`.
fn prefixed(prefix: &str, s: &String) -> (r: String)
    ensures
        r@ == prefix@ + s@,
{
    let mut r = String::from_str(prefix);
    r.append(s.as_str());
    r
}

impl CommandError {
    /// The error's message, as shown to the user.
    pub fn message(&self) -> (r: String)
        ensures
            r@ == command_message(*self),
    {
        match self {
            CommandError::VaultNotOpen => String::from_str("vault not open"),
            CommandError::IndexerNotReady => String::from_str(
                "indexer not available — try rebuilding the index",
            ),
            CommandError::SearchNotReady => String::from_str("search engine not available"),
            CommandError::Vault(s) => prefixed("vault error: ", s),
            CommandError::Indexer(s) => prefixed("indexer error: ", s),
            CommandError::Search(s) => prefixed("search error: ", s),
            CommandError::Watcher(s) => prefixed("watcher error: ", s),
            CommandError::Io(s) => prefixed("io error: ", s),
        }
    }
}

// ---------------------------------------------------------------------------
// File tree for the front end
// ---------------------------------------------------------------------------

/// The directory tree as sent to the front end.
pub enum TreeEntryJson {
    File { name: String },
    Dir { name: String, children: Vec<TreeEntryJson> },
}

/// `j` mirrors `e`: same kinds and names all the way down.
pub open spec fn mirrors(j: TreeEntryJson, e: TreeEntry) -> bool
    decreases e, 1int,
{
    match (j, e) {
        (TreeEntryJson::File { name: a }, TreeEntry::File { name: b }) => a@ == b@,
        (TreeEntryJson::Dir { name: a, children: cj }, TreeEntry::Dir { name: b, children: ce }) => {
            &&& a@ == b@
            &&& mirrors_all(cj@, ce@)
        },
        _ => false,
    }
}

/// Each item of `js` mirrors the item of `es` at the same place.
pub open spec fn mirrors_all(js: Seq<TreeEntryJson>, es: Seq<TreeEntry>) -> bool
    decreases es, 0int,
{
    if es.len() == 0 {
        js.len() == 0
    } else {
        &&& js.len() == es.len()
        &&& mirrors_all(js.drop_last(), es.drop_last())
        &&& mirrors(js.last(), es.last())
    }
}

impl TreeEntryJson {
    /// The front-end form of a tree entry.
    pub fn from_entry(e: &TreeEntry) -> (r: TreeEntryJson)
        ensures
            mirrors(r, *e),
        decreases e,
    {
        match e {
            TreeEntry::File { name } => TreeEntryJson::File { name: name.clone() },
            TreeEntry::Dir { name, children } => {
                let mut out: Vec<TreeEntryJson> = Vec::new();
                let mut i: usize = 0;
                assert(children@.take(0) =~= Seq::<TreeEntry>::empty());
                #[verifier::loop_isolation(false)]
                while i < children.len()
                    invariant
                        i <= children.len(),
                        out@.len() == i,
                        mirrors_all(out@, children@.take(i as int)),
                    decreases children.len() - i,
                {
                    let c = TreeEntryJson::from_entry(&children[i]);
                    let ghost before = out@;
                    out.push(c);
                    assert(out@.drop_last() =~= before);
                    assert(children@.take(i + 1).drop_last() =~= children@.take(i as int));
                    assert(children@.take(i + 1).last() == children@[i as int]);
                    i += 1;
                }
                assert(children@.take(children.len() as int) =~= children@);
                TreeEntryJson::Dir { name: name.clone(), children: out }
            },
        }
    }
}

// ---------------------------------------------------------------------------
// Watcher payload
// ---------------------------------------------------------------------------

/// A file-system change as sent to the front end, with paths relative to
/// the vault root.
pub enum WatchEventPayload {
    Created { path: String },
    Modified { path: String },
    Removed { path: String },
    BulkChange { count: usize },
}

// ---------------------------------------------------------------------------
// Paths
// ---------------------------------------------------------------------------

/// The directories that a vault may not live under.
pub open spec fn forbidden_prefixes() -> Seq<Seq<char>> {
    seq!["/tmp"@, "/proc"@, "/dev"@, "/sys"@, "/etc"@, "/home"@, "/var"@, "/root"@]
}

/// The first forbidden directory that `t` lies under (or is), compared
/// component by component (`Path::starts_with`).
pub open spec fn forbidden_prefix_of(t: Seq<char>, ps: Seq<Seq<char>>) -> Option<Seq<char>>
    decreases ps.len(),
{
    if ps.len() == 0 {
        None
    } else if strip_prefix_path(t, ps[0]) is Some {
        Some(ps[0])
    } else {
        forbidden_prefix_of(t, ps.drop_first())
    }
}

/// What `sanitize_path` answers for `input`: the trimmed path, or the
/// first rule it breaks — empty, holding a NUL, not absolute, holding a
/// `..` component, or lying under a forbidden directory.
pub open spec fn sanitized(input: Seq<char>) -> Result<Seq<char>, Seq<char>> {
    let t = trimmed(input);
    if t.len() == 0 {
        Err("path must not be empty"@)
    } else if first_index(t, '\0') is Some {
        Err("path contains null byte"@)
    } else if !crate::path::is_rooted(t) {
        Err("path must be absolute"@)
    } else if components(t).contains(crate::path::dot_dot()) {
        Err("path must not contain path traversal (..)"@)
    } else {
        match forbidden_prefix_of(t, forbidden_prefixes()) {
            Some(p) => Err("path under "@ + p + " is not allowed"@),
            None => Ok(t),
        }
    }
}

/// When no forbidden directory is found, the path lies under none of them.
proof fn lemma_no_forbidden_prefix(t: Seq<char>, ps: Seq<Seq<char>>)
    requires
        forbidden_prefix_of(t, ps) is None,
    ensures
        forall|i: int| 0 <= i < ps.len() ==> strip_prefix_path(t, #[trigger] ps[i]) is None,
    decreases ps.len(),
{
    if ps.len() > 0 {
        lemma_no_forbidden_prefix(t, ps.drop_first());
        assert forall|i: int| 0 <= i < ps.len() implies strip_prefix_path(t, #[trigger] ps[i]) is None by {
            if i > 0 {
                assert(ps[i] == ps.drop_first()[i - 1]);
            }
        }
    }
}

/// A path that sanitising accepts is the trimmed input, is non-empty and
/// absolute, holds no NUL and no `..` component, and lies under none of
/// the forbidden directories.
pub proof fn law_sanitized_path_safe(input: Seq<char>)
    ensures
        sanitized(input) matches Ok(p) ==> {
            &&& p == trimmed(input)
            &&& p.len() > 0
            &&& !p.contains('\0')
            &&& crate::path::is_rooted(p)
            &&& !components(p).contains(crate::path::dot_dot())
            &&& forall|i: int| 0 <= i < forbidden_prefixes().len() ==> strip_prefix_path(p, #[trigger] forbidden_prefixes()[i]) is None
        },
{
    let t = trimmed(input);
    if sanitized(input) is Ok {
        crate::text::lemma_first_index(t, '\0');
        lemma_no_forbidden_prefix(t, forbidden_prefixes());
    }
}

/// Whether some component is `..`.
fn has_parent_component(t: &Vec<char>) -> (r: bool)
    ensures
        r == components(t@).contains(crate::path::dot_dot()),
{
    let cs = crate::path::path_components(t);
    let mut i: usize = 0;
    while i < cs.len()
        invariant
            i <= cs.len(),
            crate::text::views(cs@) == components(t@),
            forall|j: int| 0 <= j < i ==> components(t@)[j] != crate::path::dot_dot(),
        decreases cs.len() - i,
    {
        assert(crate::text::views(cs@)[i as int] == cs@[i as int]@);
        let c = &cs[i];
        if c.len() == 2 && c[0] == '.' && c[1] == '.' {
            assert(c@ =~= crate::path::dot_dot());
            return true;
        }
        assert(c@ != crate::path::dot_dot()) by {
            if c@ == crate::path::dot_dot() {
                assert(c@[0] == '.' && c@[1] == '.');
            }
        }
        i += 1;
    }
    false
}

/// Sanitises a user-supplied vault path.
///
/// Rejects empty strings, strings holding NUL, relative paths, paths with
/// a `..` component, and paths under `/tmp`, `/proc`, `/dev`, `/sys`,
/// `/etc`, `/home`, `/var` or `/root`.
pub fn sanitize_path(input: &str) -> (r: Result<String, CommandError>)
    ensures
        match sanitized(input@) {
            Ok(t) => r matches Ok(p) && p@ == t,
            Err(m) => r matches Err(CommandError::Vault(s)) && s@ == m,
        },
{
    let v = to_chars(input);
    let t = trim(&v);
    if t.len() == 0 {
        return Err(CommandError::Vault(String::from_str("path must not be empty")));
    }
    if crate::text::find_char(&t, '\0').is_some() {
        return Err(CommandError::Vault(String::from_str("path contains null byte")));
    }
    if !(t.len() > 0 && t[0] == '/') {
        return Err(CommandError::Vault(String::from_str("path must be absolute")));
    }
    if has_parent_component(&t) {
        return Err(CommandError::Vault(String::from_str("path must not contain path traversal (..)")));
    }
    let prefixes = ["/tmp", "/proc", "/dev", "/sys", "/etc", "/home", "/var", "/root"];
    let ghost ps = forbidden_prefixes();
    assert(ps.len() == 8);
    let mut i: usize = 0;
    assert(ps.subrange(0, 8) =~= ps);
    #[verifier::loop_isolation(false)]
    while i < 8
        invariant
            i <= 8,
            ps == forbidden_prefixes(),
            ps.len() == 8,
            forall|j: int| 0 <= j < 8 ==> (#[trigger] prefixes@[j])@ == ps[j],
            forbidden_prefix_of(t@, ps) == forbidden_prefix_of(t@, ps.subrange(i as int, 8)),
        decreases 8 - i,
    {
        let p = to_chars(prefixes[i]);
        assert(prefixes@[i as int]@ == ps[i as int]);
        assert(ps.subrange(i as int, 8)[0] == ps[i as int]);
        if strip_path_prefix(&t, &p).is_some() {
            let mut m = String::from_str("path under ");
            m.append(prefixes[i]);
            m.append(" is not allowed");
            return Err(CommandError::Vault(m));
        }
        assert(ps.subrange(i as int, 8).drop_first() =~= ps.subrange(i + 1, 8));
        i += 1;
    }
    Ok(from_chars(&t))
}

/// The path relative to the vault root, or `[outside-vault]` when the path
/// is not inside the vault (so no absolute path reaches the front end).
pub open spec fn relative_to_vault(absolute: Seq<char>, root: Seq<char>) -> Seq<char> {
    match strip_prefix_path(absolute, root) {
        Some(r) => r,
        None => "[outside-vault]"@,
    }
}

/// Strips the vault root prefix, returning a relative path string.
pub fn strip_vault_prefix(absolute: &str, vault_root: &str) -> (r: String)
    ensures
        r@ == relative_to_vault(absolute@, vault_root@),
{
    let a = to_chars(absolute);
    let b = to_chars(vault_root);
    match strip_path_prefix(&a, &b) {
        Some(r) => from_chars(&r),
        None => String::from_str("[outside-vault]"),
    }
}

/// With an absolute vault root, a path inside the vault (its components
/// starting with the root's) gets a relative path that, joined to the
/// root, gives the path back; any other path gets `[outside-vault]`. So no
/// absolute path is ever returned.
pub proof fn law_strip_vault_prefix(absolute: Seq<char>, root: Seq<char>)
    requires
        crate::path::is_rooted(root),
    ensures
        (is_rooted(absolute) && components(root).len() <= components(absolute).len()
            && components(absolute).subrange(0, components(root).len() as int) == components(root))
            ==> !crate::path::is_rooted(relative_to_vault(absolute, root)) && components(root)
            + components(relative_to_vault(absolute, root)) == components(absolute),
        !(is_rooted(absolute) && components(root).len() <= components(absolute).len()
            && components(absolute).subrange(0, components(root).len() as int) == components(root))
            ==> relative_to_vault(absolute, root) == "[outside-vault]"@,
{
    crate::path::lemma_strip_prefix_rejoins(absolute, root);
}

// ---------------------------------------------------------------------------
// Dates
// ---------------------------------------------------------------------------

/// A byte is an ASCII digit.
pub open spec fn is_digit(b: u8) -> bool {
    48 <= b <= 57
}

/// The value of a run of ASCII digits.
pub open spec fn digits_value(d: Seq<u8>) -> int
    decreases d.len(),
{
    if d.len() == 0 {
        0
    } else {
        digits_value(d.drop_last()) * 10 + (d.last() - 48)
    }
}

/// Every byte is a digit.
pub open spec fn all_digits(d: Seq<u8>) -> bool {
    forall|i: int| 0 <= i < d.len() ==> is_digit(#[trigger] d[i])
}

/// What `str::parse` gives for an integer written as these bytes: an
/// optional `+` (or `-` when `signed`) then at least one digit.
pub open spec fn parse_int(d: Seq<u8>, signed: bool) -> Option<int> {
    if d.len() == 0 {
        None
    } else if d[0] == 43 || (signed && d[0] == 45) {
        let rest = d.subrange(1, d.len() as int);
        if rest.len() > 0 && all_digits(rest) {
            Some(if d[0] == 45 { -digits_value(rest) } else { digits_value(rest) })
        } else {
            None
        }
    } else if all_digits(d) {
        Some(digits_value(d))
    } else {
        None
    }
}

/// Days since 1970-01-01 of a proleptic Gregorian date (Howard Hinnant's
/// `days_from_civil`, over years starting in March).
pub open spec fn civil_days(y: int, m: int, d: int) -> int {
    let yy = if m <= 2 { y - 1 } else { y };
    let era = yy / 400;
    let yoe = yy - era * 400;
    let mp = if m > 2 { m - 3 } else { m + 9 };
    let doy = (153 * mp + 2) / 5 + d - 1;
    let doe = yoe * 365 + yoe / 4 - yoe / 100 + doy;
    era * 146097 + doe - 719468
}

/// The inputs on which `days_from_civil` computes without overflow.
pub open spec fn civil_in_range(y: i32, m: u32, d: u32) -> bool {
    &&& (m <= 2 ==> y > i32::MIN)
    &&& ((if m <= 2 { y - 1 } else { y as int }) < 0 ==> (if m <= 2 { y - 1 } else { y as int }) - 399 >= i32::MIN)
    &&& 153 * (if m > 2 { m - 3 } else { m + 9 }) + 2 <= u32::MAX
    &&& (153 * (if m > 2 { m - 3 } else { m + 9 }) + 2) / 5 + d <= u32::MAX
    &&& (153 * (if m > 2 { m - 3 } else { m + 9 }) + 2) / 5 + d >= 1
}

/// Converts a civil (year, month, day) date to days since 1970-01-01.
pub fn days_from_civil(y: i32, m: u32, d: u32) -> (r: i64)
    requires
        civil_in_range(y, m, d),
    ensures
        r == civil_days(y as int, m as int, d as int),
{
    let y = if m <= 2 { y - 1 } else { y };
    // `era` is `y` divided by 400, rounded down.
    let era = if y >= 0 {
        y / 400
    } else {
        let n = -(y + 1);
        -(n / 400) - 1
    };
    proof {
        if y < 0 {
            let n = -(y + 1);
            let q = n / 400;
            let r = n % 400;
            vstd::arithmetic::div_mod::lemma_fundamental_div_mod(n, 400);
            vstd::arithmetic::div_mod::lemma_fundamental_div_mod_converse(
                y as int,
                400,
                -q - 1,
                399 - r,
            );
        }
    }
    assert(era == (y as int) / 400);
    let yoe = y - era * 400;
    let doy = (153 * (if m > 2 { m - 3 } else { m + 9 }) + 2) / 5 + d - 1;
    let doe = (yoe as i64) * 365 + (yoe / 4) as i64 - (yoe / 100) as i64 + (doy as i64);
    (era as i64) * 146097 + doe - 719468
}

/// The micros since the epoch of an ISO-8601 date held in `b`, as
/// `parse_iso_to_micros` computes them: `YYYY-MM-DD`, optionally followed by
/// `THH:MM:SS`; anything that does not parse gives 0 (the characters at the
/// separator positions are not checked).
pub open spec fn iso_micros(b: Seq<u8>) -> int {
    if b.len() < 10 {
        0
    } else {
        match (
            parse_int(b.subrange(0, 4), true),
            parse_int(b.subrange(5, 7), false),
            parse_int(b.subrange(8, 10), false),
        ) {
            (Some(y), Some(m), Some(d)) => if m == 3 && d == 0 {
                0
            } else {
                let timed = b.len() >= 19 && b[10] == 84;
                let part = |lo: int|
                    if timed {
                        match parse_int(b.subrange(lo, lo + 2), false) {
                            Some(v) => v,
                            None => 0,
                        }
                    } else {
                        0
                    };
                civil_days(y, m, d) * 86_400_000_000 + part(11) * 3_600_000_000 + part(14)
                    * 60_000_000 + part(17) * 1_000_000
            },
            _ => 0,
        }
    }
}

/// Digits of a bounded number stay below its power of ten.
proof fn lemma_digits_bound(d: Seq<u8>)
    requires
        all_digits(d),
        d.len() <= 4,
    ensures
        0 <= digits_value(d) < (if d.len() == 0 { 1int } else if d.len() == 1 { 10int } else if d.len() == 2 { 100int } else if d.len() == 3 { 1000int } else { 10000int }),
    decreases d.len(),
{
    if d.len() > 0 {
        assert forall|i: int| 0 <= i < d.drop_last().len() implies is_digit(#[trigger] d.drop_last()[i]) by {
            assert(d.drop_last()[i] == d[i]);
        }
        lemma_digits_bound(d.drop_last());
        assert(is_digit(d[d.len() - 1]));
    }
}

/// The value of the digits `b[lo..hi]`, if they are all digits.
fn digits_at(b: &[u8], lo: usize, hi: usize) -> (r: Option<i32>)
    requires
        lo <= hi <= b@.len(),
        hi - lo <= 4,
    ensures
        match r {
            Some(v) => all_digits(b@.subrange(lo as int, hi as int)) && v == digits_value(
                b@.subrange(lo as int, hi as int),
            ),
            None => !all_digits(b@.subrange(lo as int, hi as int)),
        },
{
    let mut v: i32 = 0;
    let mut i = lo;
    while i < hi
        invariant
            lo <= i <= hi <= b@.len(),
            hi - lo <= 4,
            all_digits(b@.subrange(lo as int, i as int)),
            v == digits_value(b@.subrange(lo as int, i as int)),
        decreases hi - i,
    {
        let c = b[i];
        if !(48 <= c && c <= 57) {
            assert(b@.subrange(lo as int, hi as int)[i - lo] == c);
            return None;
        }
        assert(b@.subrange(lo as int, i + 1).drop_last() =~= b@.subrange(lo as int, i as int));
        assert forall|j: int| 0 <= j < i + 1 - lo implies is_digit(#[trigger] b@.subrange(lo as int, i + 1)[j]) by {
            if j < i - lo {
                assert(b@.subrange(lo as int, i + 1)[j] == b@.subrange(lo as int, i as int)[j]);
            }
        }
        proof {
            lemma_digits_bound(b@.subrange(lo as int, i as int));
        }
        v = v * 10 + (c - 48) as i32;
        i += 1;
    }
    Some(v)
}

/// The integer written as `b[lo..hi]` (at most 4 digits), as `str::parse`
/// reads it.
fn parse_int_at(b: &[u8], lo: usize, hi: usize, signed: bool) -> (r: Option<i32>)
    requires
        lo < hi <= b@.len(),
        hi - lo <= 4,
    ensures
        match r {
            Some(v) => parse_int(b@.subrange(lo as int, hi as int), signed) == Some(v as int),
            None => parse_int(b@.subrange(lo as int, hi as int), signed) is None,
        },
        r matches Some(v) ==> -9999 <= v <= 9999,
        r matches Some(v) ==> (!signed ==> v >= 0),
        r matches Some(v) ==> (hi - lo <= 2 ==> -99 <= v <= 99),
{
    let ghost d = b@.subrange(lo as int, hi as int);
    let first = b[lo];
    assert(d[0] == first);
    if first == 43 || (signed && first == 45) {
        assert(b@.subrange(lo + 1, hi as int) =~= d.subrange(1, d.len() as int));
        if hi - lo < 2 {
            return None;
        }
        match digits_at(b, lo + 1, hi) {
            Some(v) => {
                proof {
                    lemma_digits_bound(b@.subrange(lo + 1, hi as int));
                }
                if first == 45 {
                    Some(-v)
                } else {
                    Some(v)
                }
            },
            None => None,
        }
    } else {
        match digits_at(b, lo, hi) {
            Some(v) => {
                proof {
                    lemma_digits_bound(d);
                }
                Some(v)
            },
            None => None,
        }
    }
}

/// Best-effort parse of an ISO-8601 date string (`YYYY-MM-DD`, optionally
/// `THH:MM:SS`) to microseconds since the epoch; 0 when it does not parse
/// (a day 0 of March, which has no day of the year, included).
pub fn parse_iso_to_micros(s: &str) -> (r: i64)
    ensures
        r == iso_micros(s.spec_bytes()),
{
    let b = s.as_bytes();
    if b.len() < 10 {
        return 0;
    }
    let year = match parse_int_at(b, 0, 4, true) {
        Some(v) => v,
        None => return 0,
    };
    let month = match parse_int_at(b, 5, 7, false) {
        Some(v) => v,
        None => return 0,
    };
    let day = match parse_int_at(b, 8, 10, false) {
        Some(v) => v,
        None => return 0,
    };
    if month == 3 && day == 0 {
        return 0;
    }
    let timed = b.len() >= 19 && b[10] == 84;
    let mut hour: i32 = 0;
    let mut minute: i32 = 0;
    let mut second: i32 = 0;
    if timed {
        hour = match parse_int_at(b, 11, 13, false) {
            Some(v) => v,
            None => 0,
        };
        minute = match parse_int_at(b, 14, 16, false) {
            Some(v) => v,
            None => 0,
        };
        second = match parse_int_at(b, 17, 19, false) {
            Some(v) => v,
            None => 0,
        };
    }
    let m = month as u32;
    let d = day as u32;
    let days = days_from_civil(year, m, d);
    proof {
        lemma_civil_bounds(year as int, m as int, d as int);
    }
    days * 86_400_000_000 + (hour as i64) * 3_600_000_000 + (minute as i64) * 60_000_000
        + (second as i64) * 1_000_000
}

/// A timestamp `YYYY-MM-DDTHH:MM:SS` counts the days of its date and the
/// seconds of its time of day, whatever follows the seconds (`Z`,
/// fractional seconds, an offset): only its first 19 bytes are read.
pub proof fn law_iso_time_of_day(b: Seq<u8>, y: int, m: int, d: int, h: int, mi: int, sec: int)
    requires
        b.len() >= 19,
        b[10] == 84,
        parse_int(b.subrange(0, 4), true) == Some(y),
        parse_int(b.subrange(5, 7), false) == Some(m),
        parse_int(b.subrange(8, 10), false) == Some(d),
        parse_int(b.subrange(11, 13), false) == Some(h),
        parse_int(b.subrange(14, 16), false) == Some(mi),
        parse_int(b.subrange(17, 19), false) == Some(sec),
        !(m == 3 && d == 0),
    ensures
        iso_micros(b) == civil_days(y, m, d) * 86_400_000_000 + (h * 3600 + mi * 60 + sec)
            * 1_000_000,
        iso_micros(b) == iso_micros(b.take(19)),
{
    let t = b.take(19);
    assert(t.subrange(0, 4) =~= b.subrange(0, 4));
    assert(t.subrange(5, 7) =~= b.subrange(5, 7));
    assert(t.subrange(8, 10) =~= b.subrange(8, 10));
    assert(t.subrange(11, 13) =~= b.subrange(11, 13));
    assert(t.subrange(14, 16) =~= b.subrange(14, 16));
    assert(t.subrange(17, 19) =~= b.subrange(17, 19));
    assert(t[10] == b[10]);
}

/// Bytes after the first 19 never change the timestamp.
pub proof fn law_iso_reads_19_bytes(b: Seq<u8>)
    requires
        b.len() >= 19,
    ensures
        iso_micros(b) == iso_micros(b.take(19)),
{
    let t = b.take(19);
    assert(t.subrange(0, 4) =~= b.subrange(0, 4));
    assert(t.subrange(5, 7) =~= b.subrange(5, 7));
    assert(t.subrange(8, 10) =~= b.subrange(8, 10));
    assert(t.subrange(11, 13) =~= b.subrange(11, 13));
    assert(t.subrange(14, 16) =~= b.subrange(14, 16));
    assert(t.subrange(17, 19) =~= b.subrange(17, 19));
    assert(t[10] == b[10]);
}

/// Whether `y` is a leap year of the Gregorian calendar.
pub open spec fn is_leap_year(y: int) -> bool {
    y % 4 == 0 && (y % 100 != 0 || y % 400 == 0)
}

/// The number of days of month `m` (1 to 12) of year `y`.
pub open spec fn month_length(y: int, m: int) -> int {
    if m == 2 {
        if is_leap_year(y) { 29 } else { 28 }
    } else if m == 4 || m == 6 || m == 9 || m == 11 {
        30
    } else {
        31
    }
}

/// Days from the start of the 400-year era of the March-based year `yy`
/// to its first day, plus the era's offset.
spec fn march_year_start(yy: int) -> int {
    let era = yy / 400;
    let yoe = yy - era * 400;
    era * 146097 + yoe * 365 + yoe / 4 - yoe / 100
}

/// A March-based year is 365 days long, 366 when the February at its end
/// has a leap day.
proof fn lemma_march_year_length(y: int)
    ensures
        march_year_start(y) - march_year_start(y - 1) == 365 + (if is_leap_year(y) { 1int } else { 0 }),
{
    let e = y / 400;
    let r = y % 400;
    vstd::arithmetic::div_mod::lemma_fundamental_div_mod(y, 400);
    if r == 0 {
        vstd::arithmetic::div_mod::lemma_fundamental_div_mod_converse(y - 1, 400, e - 1, 399);
        assert(y % 4 == 0 && y % 100 == 0) by {
            vstd::arithmetic::div_mod::lemma_fundamental_div_mod_converse(y, 4, 100 * e, 0);
            vstd::arithmetic::div_mod::lemma_fundamental_div_mod_converse(y, 100, 4 * e, 0);
        }
    } else {
        vstd::arithmetic::div_mod::lemma_fundamental_div_mod_converse(y - 1, 400, e, r - 1);
        assert(y % 4 == r % 4) by {
            vstd::arithmetic::div_mod::lemma_fundamental_div_mod(r, 4);
            vstd::arithmetic::div_mod::lemma_fundamental_div_mod_converse(
                y,
                4,
                100 * e + r / 4,
                r % 4,
            );
        }
        assert(y % 100 == r % 100) by {
            vstd::arithmetic::div_mod::lemma_fundamental_div_mod(r, 100);
            vstd::arithmetic::div_mod::lemma_fundamental_div_mod_converse(
                y,
                100,
                4 * e + r / 100,
                r % 100,
            );
        }
        assert(r / 4 - (r - 1) / 4 == (if r % 4 == 0 { 1int } else { 0 }));
        assert(r / 100 - (r - 1) / 100 == (if r % 100 == 0 { 1int } else { 0 }));
    }
}

/// `civil_days` counts days: 1970-01-01 is day 0, the day after a day is
/// the next number, and the first day of a month follows the last day of
/// the month before (leap years included).
pub proof fn law_civil_days_count(y: int, m: int, d: int)
    requires
        1 <= m <= 12,
    ensures
        civil_days(1970, 1, 1) == 0,
        civil_days(y, m, d + 1) == civil_days(y, m, d) + 1,
        m < 12 ==> civil_days(y, m + 1, 1) == civil_days(y, m, month_length(y, m)) + 1,
        m == 12 ==> civil_days(y + 1, 1, 1) == civil_days(y, 12, 31) + 1,
{
    assert(civil_days(1970, 1, 1) == 0) by {
        assert(1969int / 400 == 4);
    }
    if m == 2 {
        lemma_march_year_length(y);
        assert(civil_days(y, 3, 1) == march_year_start(y) + 0 - 719468);
        assert(civil_days(y, 2, month_length(y, 2)) == march_year_start(y - 1) + 337 + month_length(y, 2) - 1 - 719468);
    }
}

/// Bounds of `civil_days` on four-digit years and two-digit months and days.
proof fn lemma_civil_bounds(y: int, m: int, d: int)
    requires
        -9999 <= y <= 9999,
        0 <= m <= 99,
        0 <= d <= 99,
    ensures
        -5_000_000 <= civil_days(y, m, d) <= 5_000_000,
{
    let yy = if m <= 2 { y - 1 } else { y };
    let era = yy / 400;
    let yoe = yy - era * 400;
    let mp = if m > 2 { m - 3 } else { m + 9 };
    assert(-25 <= era <= 24);
    assert(0 <= yoe < 400);
    assert(0 <= mp <= 108);
    assert(0 <= (153 * mp + 2) / 5 <= 3400);
    assert(0 <= yoe / 4 <= 100 && 0 <= yoe / 100 <= 4);
    assert(-25 * 146097 <= era * 146097 <= 24 * 146097);
}

// ---------------------------------------------------------------------------
// Command inputs
// ---------------------------------------------------------------------------

/// A command's text input as used: trimmed, and refused when it holds a
/// null character.
pub open spec fn checked_input_of(input: Seq<char>) -> Option<Seq<char>> {
    if trimmed(input).contains('\0') {
        None
    } else {
        Some(trimmed(input))
    }
}

/// Trims a command's text input; `None` when it holds a null character.
pub fn checked_input(input: &str) -> (r: Option<String>)
    ensures
        match r {
            Some(s) => checked_input_of(input@) == Some(s@),
            None => checked_input_of(input@) is None,
        },
{
    let t = trim(&to_chars(input));
    let mut i: usize = 0;
    while i < t.len()
        invariant
            i <= t.len(),
            t@ == trimmed(input@),
            forall|j: int| 0 <= j < i ==> t@[j] != '\0',
        decreases t.len() - i,
    {
        if t[i] == '\0' {
            assert(t@[i as int] == '\0');
            assert(t@.contains('\0'));
            return None;
        }
        i += 1;
    }
    assert(!t@.contains('\0'));
    Some(from_chars(&t))
}

/// The result limit of a search: the one asked for, or `default`, and
/// never more than a hundred.
pub open spec fn limit_of(limit: Option<usize>, default: usize) -> int {
    let l = match limit {
        Some(l) => l as int,
        None => default as int,
    };
    if l < 100 {
        l
    } else {
        100
    }
}

/// The result limit of a search (`limit.unwrap_or(default).min(100)`).
pub fn effective_limit(limit: Option<usize>, default: usize) -> (r: usize)
    ensures
        r == limit_of(limit, default),
{
    let l = match limit {
        Some(l) => l,
        None => default,
    };
    if l < 100 {
        l
    } else {
        100
    }
}

// ---------------------------------------------------------------------------
// Reacting to watcher events
// ---------------------------------------------------------------------------

/// The value of a [`WatchEventPayload`].
pub enum PayloadV {
    Created(Seq<char>),
    Modified(Seq<char>),
    Removed(Seq<char>),
    BulkChange(nat),
}

impl View for WatchEventPayload {
    type V = PayloadV;

    open spec fn view(&self) -> PayloadV {
        match self {
            WatchEventPayload::Created { path } => PayloadV::Created(path@),
            WatchEventPayload::Modified { path } => PayloadV::Modified(path@),
            WatchEventPayload::Removed { path } => PayloadV::Removed(path@),
            WatchEventPayload::BulkChange { count } => PayloadV::BulkChange(*count as nat),
        }
    }
}

/// What the front end is told of a change: the paths relative to the vault
/// root, a rename told as the removal of the old path and the creation of
/// the new one.
pub open spec fn payloads_of(e: WatchEventV, root: Seq<char>) -> Seq<PayloadV> {
    match e {
        WatchEventV::Created(p) => seq![PayloadV::Created(relative_to_vault(p, root))],
        WatchEventV::Modified(p) => seq![PayloadV::Modified(relative_to_vault(p, root))],
        WatchEventV::Removed(p) => seq![PayloadV::Removed(relative_to_vault(p, root))],
        WatchEventV::Rename { old, new } => seq![
            PayloadV::Removed(relative_to_vault(old, root)),
            PayloadV::Created(relative_to_vault(new, root)),
        ],
        WatchEventV::BulkChange { count } => seq![PayloadV::BulkChange(count)],
    }
}

/// The payloads sent to the front end for a watcher event.
pub fn payloads_for(event: &WatchEvent, root: &str) -> (r: Vec<WatchEventPayload>)
    ensures
        r@.map_values(|p: WatchEventPayload| p@) == payloads_of(event@, root@),
{
    let mut r: Vec<WatchEventPayload> = Vec::new();
    match event {
        WatchEvent::Created(p) => {
            r.push(WatchEventPayload::Created { path: strip_vault_prefix(p.as_str(), root) });
        },
        WatchEvent::Modified(p) => {
            r.push(WatchEventPayload::Modified { path: strip_vault_prefix(p.as_str(), root) });
        },
        WatchEvent::Removed(p) => {
            r.push(WatchEventPayload::Removed { path: strip_vault_prefix(p.as_str(), root) });
        },
        WatchEvent::Rename { old, new } => {
            r.push(WatchEventPayload::Removed { path: strip_vault_prefix(old.as_str(), root) });
            r.push(WatchEventPayload::Created { path: strip_vault_prefix(new.as_str(), root) });
        },
        WatchEvent::BulkChange { count } => {
            r.push(WatchEventPayload::BulkChange { count: *count });
        },
    }
    assert(r@.map_values(|p: WatchEventPayload| p@) =~= payloads_of(event@, root@));
    r
}

/// A step that keeps the note index and the search engine in step with a
/// change on disk.
pub enum SyncAction {
    /// Index the note at this vault-relative path again, in the note index
    /// and in the search engine (which commits).
    Reindex(String),
    /// Drop the note at this vault-relative path from the note index and
    /// from the search engine.
    Remove(String),
    /// Commit the search engine.
    Commit,
    /// Rebuild the note index and the search engine from the disk.
    Rebuild,
}

/// The value of a [`SyncAction`].
pub enum SyncActionV {
    Reindex(Seq<char>),
    Remove(Seq<char>),
    Commit,
    Rebuild,
}

impl View for SyncAction {
    type V = SyncActionV;

    open spec fn view(&self) -> SyncActionV {
        match self {
            SyncAction::Reindex(p) => SyncActionV::Reindex(p@),
            SyncAction::Remove(p) => SyncActionV::Remove(p@),
            SyncAction::Commit => SyncActionV::Commit,
            SyncAction::Rebuild => SyncActionV::Rebuild,
        }
    }
}

/// A vault-relative path names a note when it ends in `.md`.
pub open spec fn names_note(rel: Seq<char>) -> bool {
    crate::text::ends_with(rel, seq!['.', 'm', 'd'])
}

/// The steps taken for a change: a created or modified note is indexed
/// again; a removed note is dropped and the search engine committed; a
/// rename touching a note drops the old note, indexes the new one (each
/// only when it is a note) and commits once; a bulk change rebuilds
/// everything. Changes to anything but notes are left alone.
pub open spec fn sync_of(e: WatchEventV, root: Seq<char>) -> Seq<SyncActionV> {
    match e {
        WatchEventV::Created(p) => {
            let rel = relative_to_vault(p, root);
            if names_note(rel) { seq![SyncActionV::Reindex(rel)] } else { seq![] }
        },
        WatchEventV::Modified(p) => {
            let rel = relative_to_vault(p, root);
            if names_note(rel) { seq![SyncActionV::Reindex(rel)] } else { seq![] }
        },
        WatchEventV::Removed(p) => {
            let rel = relative_to_vault(p, root);
            if names_note(rel) { seq![SyncActionV::Remove(rel), SyncActionV::Commit] } else { seq![] }
        },
        WatchEventV::Rename { old, new } => {
            let ro = relative_to_vault(old, root);
            let rn = relative_to_vault(new, root);
            if names_note(ro) || names_note(rn) {
                (if names_note(ro) { seq![SyncActionV::Remove(ro)] } else { seq![] }) + (if names_note(rn) {
                    seq![SyncActionV::Reindex(rn)]
                } else {
                    seq![]
                }) + seq![SyncActionV::Commit]
            } else {
                seq![]
            }
        },
        WatchEventV::BulkChange { .. } => seq![SyncActionV::Rebuild],
    }
}

/// Whether a vault-relative path names a note.
fn is_note_path(rel: &String) -> (r: bool)
    ensures
        r == names_note(rel@),
{
    let v = to_chars(rel.as_str());
    let md = vec!['.', 'm', 'd'];
    assert(md@ =~= seq!['.', 'm', 'd']);
    crate::text::has_suffix(&v, &md)
}

/// The steps that keep the note index and the search engine in step with
/// a watcher event, in order.
pub fn sync_actions_for(event: &WatchEvent, root: &str) -> (r: Vec<SyncAction>)
    ensures
        r@.map_values(|a: SyncAction| a@) == sync_of(event@, root@),
{
    let mut r: Vec<SyncAction> = Vec::new();
    match event {
        WatchEvent::Created(p) => {
            let rel = strip_vault_prefix(p.as_str(), root);
            if is_note_path(&rel) {
                r.push(SyncAction::Reindex(rel));
            }
        },
        WatchEvent::Modified(p) => {
            let rel = strip_vault_prefix(p.as_str(), root);
            if is_note_path(&rel) {
                r.push(SyncAction::Reindex(rel));
            }
        },
        WatchEvent::Removed(p) => {
            let rel = strip_vault_prefix(p.as_str(), root);
            if is_note_path(&rel) {
                r.push(SyncAction::Remove(rel));
                r.push(SyncAction::Commit);
            }
        },
        WatchEvent::Rename { old, new } => {
            let ro = strip_vault_prefix(old.as_str(), root);
            let rn = strip_vault_prefix(new.as_str(), root);
            let md_old = is_note_path(&ro);
            let md_new = is_note_path(&rn);
            if md_old || md_new {
                if md_old {
                    r.push(SyncAction::Remove(ro));
                }
                if md_new {
                    r.push(SyncAction::Reindex(rn));
                }
                r.push(SyncAction::Commit);
            }
        },
        WatchEvent::BulkChange { .. } => {
            r.push(SyncAction::Rebuild);
        },
    }
    assert(r@.map_values(|a: SyncAction| a@) =~= sync_of(event@, root@));
    r
}

/// One step of handling a watcher event.
pub enum WatchStep {
    /// Bring the note index and the search engine in step.
    Apply(SyncAction),
    /// Tell the front end.
    Emit(WatchEventPayload),
}

/// The value of a [`WatchStep`].
pub enum WatchStepV {
    Apply(SyncActionV),
    Emit(PayloadV),
}

impl View for WatchStep {
    type V = WatchStepV;

    open spec fn view(&self) -> WatchStepV {
        match self {
            WatchStep::Apply(a) => WatchStepV::Apply(a@),
            WatchStep::Emit(p) => WatchStepV::Emit(p@),
        }
    }
}

/// The steps for a watcher event: first every sync step, then every
/// payload for the front end.
pub open spec fn steps_of(e: WatchEventV, root: Seq<char>) -> Seq<WatchStepV> {
    sync_of(e, root).map_values(|a: SyncActionV| WatchStepV::Apply(a)) + payloads_of(e, root).map_values(
        |p: PayloadV| WatchStepV::Emit(p),
    )
}

/// A copy of a sync step.
fn copy_action(a: &SyncAction) -> (r: SyncAction)
    ensures
        r@ == a@,
{
    match a {
        SyncAction::Reindex(p) => SyncAction::Reindex(p.clone()),
        SyncAction::Remove(p) => SyncAction::Remove(p.clone()),
        SyncAction::Commit => SyncAction::Commit,
        SyncAction::Rebuild => SyncAction::Rebuild,
    }
}

/// A copy of a payload.
fn copy_payload(p: &WatchEventPayload) -> (r: WatchEventPayload)
    ensures
        r@ == p@,
{
    match p {
        WatchEventPayload::Created { path } => WatchEventPayload::Created { path: path.clone() },
        WatchEventPayload::Modified { path } => WatchEventPayload::Modified { path: path.clone() },
        WatchEventPayload::Removed { path } => WatchEventPayload::Removed { path: path.clone() },
        WatchEventPayload::BulkChange { count } => WatchEventPayload::BulkChange { count: *count },
    }
}

/// The steps that handle a watcher event, in the order they are taken.
pub fn watch_steps(event: &WatchEvent, root: &str) -> (r: Vec<WatchStep>)
    ensures
        r@.map_values(|s: WatchStep| s@) == steps_of(event@, root@),
{
    let actions = sync_actions_for(event, root);
    let payloads = payloads_for(event, root);
    let ghost av = actions@.map_values(|a: SyncAction| a@);
    let ghost pv = payloads@.map_values(|p: WatchEventPayload| p@);
    let ghost sa = av.map_values(|a: SyncActionV| WatchStepV::Apply(a));
    let ghost sp = pv.map_values(|p: PayloadV| WatchStepV::Emit(p));
    let mut r: Vec<WatchStep> = Vec::new();
    let mut i: usize = 0;
    while i < actions.len()
        invariant
            i <= actions.len(),
            av == actions@.map_values(|a: SyncAction| a@),
            sa == av.map_values(|a: SyncActionV| WatchStepV::Apply(a)),
            r@.len() == i,
            r@.map_values(|s: WatchStep| s@) == sa.take(i as int),
        decreases actions.len() - i,
    {
        assert(sa[i as int] == WatchStepV::Apply(actions@[i as int]@));
        r.push(WatchStep::Apply(copy_action(&actions[i])));
        assert(r@.map_values(|s: WatchStep| s@) =~= sa.take(i + 1));
        i += 1;
    }
    assert(sa.take(actions.len() as int) =~= sa);
    assert(sa + sp.take(0) =~= sa);
    let mut j: usize = 0;
    while j < payloads.len()
        invariant
            j <= payloads.len(),
            pv == payloads@.map_values(|p: WatchEventPayload| p@),
            sp == pv.map_values(|p: PayloadV| WatchStepV::Emit(p)),
            r@.len() == sa.len() + j,
            r@.map_values(|s: WatchStep| s@) == sa + sp.take(j as int),
        decreases payloads.len() - j,
    {
        assert(sp[j as int] == WatchStepV::Emit(payloads@[j as int]@));
        let ghost before = r@.map_values(|s: WatchStep| s@);
        r.push(WatchStep::Emit(copy_payload(&payloads[j])));
        assert(r@.map_values(|s: WatchStep| s@) =~= before.push(sp[j as int]));
        assert(sa + sp.take(j + 1) =~= (sa + sp.take(j as int)).push(sp[j as int]));
        j += 1;
    }
    assert(sp.take(payloads.len() as int) =~= sp);
    r
}

/// Handling a watcher event brings the note index and the search engine in
/// step before the front end hears of the change, and the front end only
/// hears of paths relative to an absolute vault root.
pub proof fn law_sync_before_emit(e: WatchEventV, root: Seq<char>)
    requires
        is_rooted(root),
    ensures
        forall|i: int, j: int|
            0 <= i < j < steps_of(e, root).len() && (#[trigger] steps_of(e, root)[i]) is Emit
                ==> (#[trigger] steps_of(e, root)[j]) is Emit,
        forall|i: int| 0 <= i < steps_of(e, root).len() ==> match #[trigger] steps_of(e, root)[i] {
            WatchStepV::Emit(PayloadV::Created(q)) => !is_rooted(q),
            WatchStepV::Emit(PayloadV::Modified(q)) => !is_rooted(q),
            WatchStepV::Emit(PayloadV::Removed(q)) => !is_rooted(q),
            _ => true,
        },
{
    let st = steps_of(e, root);
    let n = sync_of(e, root).len();
    assert forall|i: int, j: int| 0 <= i < j < st.len() && (#[trigger] st[i]) is Emit implies (
    #[trigger] st[j]) is Emit by {
        if i < n {
            assert(st[i] == WatchStepV::Apply(sync_of(e, root)[i]));
        }
        assert(st[j] == WatchStepV::Emit(payloads_of(e, root)[j - n]));
    }
    assert(!is_rooted("[outside-vault]"@)) by {
        reveal_strlit("[outside-vault]");
    }
    assert forall|x: Seq<char>| !is_rooted(#[trigger] relative_to_vault(x, root)) by {
        crate::path::lemma_strip_prefix_rejoins(x, root);
    }
    assert forall|i: int| 0 <= i < st.len() implies match #[trigger] st[i] {
        WatchStepV::Emit(PayloadV::Created(q)) => !is_rooted(q),
        WatchStepV::Emit(PayloadV::Modified(q)) => !is_rooted(q),
        WatchStepV::Emit(PayloadV::Removed(q)) => !is_rooted(q),
        _ => true,
    } by {
        if i >= n {
            assert(st[i] == WatchStepV::Emit(payloads_of(e, root)[i - n]));
        } else {
            assert(st[i] == WatchStepV::Apply(sync_of(e, root)[i]));
        }
    }
}

/// The paths that were indexed before a rebuild and are not after it.
pub open spec fn stale_of(before: Seq<Seq<char>>, after: Seq<Seq<char>>) -> Seq<Seq<char>>
    decreases before.len(),
{
    if before.len() == 0 {
        seq![]
    } else {
        let prev = stale_of(before.drop_last(), after);
        if after.contains(before.last()) {
            prev
        } else {
            prev.push(before.last())
        }
    }
}

/// The notes to drop from the search engine after a rebuild: those indexed
/// before it and gone after it.
pub fn stale_paths(before: &Vec<String>, after: &Vec<String>) -> (r: Vec<String>)
    ensures
        crate::frontmatter::strs(r@) == stale_of(
            crate::frontmatter::strs(before@),
            crate::frontmatter::strs(after@),
        ),
{
    let ghost bs = crate::frontmatter::strs(before@);
    let ghost af = crate::frontmatter::strs(after@);
    let mut r: Vec<String> = Vec::new();
    let mut k: usize = 0;
    assert(bs.take(0) =~= Seq::<Seq<char>>::empty());
    while k < before.len()
        invariant
            k <= before.len(),
            bs == crate::frontmatter::strs(before@),
            af == crate::frontmatter::strs(after@),
            crate::frontmatter::strs(r@) == stale_of(bs.take(k as int), af),
        decreases before.len() - k,
    {
        let ghost prev = crate::frontmatter::strs(r@);
        assert(bs.take(k + 1).drop_last() =~= bs.take(k as int));
        assert(bs.take(k + 1).last() == before[k as int]@);
        let mut found = false;
        let mut j: usize = 0;
        while j < after.len()
            invariant
                j <= after.len(),
                k < before.len(),
                af == crate::frontmatter::strs(after@),
                found == (exists|i: int| 0 <= i < j && af[i] == before[k as int]@),
            decreases after.len() - j,
        {
            assert(af[j as int] == after[j as int]@);
            if after[j] == before[k] {
                found = true;
            }
            j += 1;
        }
        assert(found == af.contains(before[k as int]@));
        if !found {
            r.push(before[k].clone());
            assert(crate::frontmatter::strs(r@) =~= prev.push(before[k as int]@));
        }
        k += 1;
    }
    assert(bs.take(before.len() as int) =~= bs);
    r
}

} // verus!
