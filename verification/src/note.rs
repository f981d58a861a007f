//! A note's metadata, read from its path and Markdown content.
use vstd::prelude::*;

use crate::frontmatter::{
    copy_strings, raw_text, split_frontmatter, split_frontmatter_chars, strs, to_strings,
    Frontmatter, FrontmatterV,
};
use crate::markdown::{
    heading_views, headings, headings_in, inline_tags, inline_tags_in, link_views, links_from,
    opt_view, wikilinks_in, Heading, HeadingV, Wikilink, WikilinkV,
};
use crate::text::{
    from_chars, is_whitespace, is_ws, last_index, lines, rfind_char, slice, split_lines, to_chars,
    views,
};

verus! {

/// Everything the index knows of one note.
pub struct NoteData {
    /// Path relative to the vault root.
    pub path: String,
    pub title: String,
    /// Frontmatter tags first, then inline tags not already present.
    pub tags: Vec<String>,
    pub frontmatter: Frontmatter,
    pub outgoing_links: Vec<Wikilink>,
    pub headings: Vec<Heading>,
    pub created: Option<String>,
    pub modified: Option<String>,
    pub word_count: usize,
    pub line_count: usize,
}

/// The mathematical value of a [`NoteData`].
pub struct NoteV {
    pub path: Seq<char>,
    pub title: Seq<char>,
    pub tags: Seq<Seq<char>>,
    pub frontmatter: FrontmatterV,
    pub outgoing_links: Seq<WikilinkV>,
    pub headings: Seq<HeadingV>,
    pub created: Option<Seq<char>>,
    pub modified: Option<Seq<char>>,
    pub word_count: nat,
    pub line_count: nat,
}

impl View for NoteData {
    type V = NoteV;

    open spec fn view(&self) -> NoteV {
        NoteV {
            path: self.path@,
            title: self.title@,
            tags: strs(self.tags@),
            frontmatter: self.frontmatter@,
            outgoing_links: link_views(self.outgoing_links@),
            headings: heading_views(self.headings@),
            created: opt_view(self.created),
            modified: opt_view(self.modified),
            word_count: self.word_count as nat,
            line_count: self.line_count as nat,
        }
    }
}

/// `base` followed by the items of `extra` that are not yet present.
pub open spec fn merge_tags(base: Seq<Seq<char>>, extra: Seq<Seq<char>>) -> Seq<Seq<char>>
    decreases extra.len(),
{
    if extra.len() == 0 {
        base
    } else {
        let m = merge_tags(base, extra.drop_last());
        if m.contains(extra.last()) {
            m
        } else {
            m.push(extra.last())
        }
    }
}

/// The file name without its extension (`Path::file_stem`): the part of
/// the file name (the last component, not `.` or `..`) before its last
/// `.`, unless that `.` starts the name.
pub open spec fn file_stem(p: Seq<char>) -> Option<Seq<char>> {
    match crate::path::path_file_name(p) {
        Some(n) => match last_index(n, '.') {
            Some(d) => if d == 0 {
                Some(n)
            } else {
                Some(n.subrange(0, d))
            },
            None => Some(n),
        },
        None => None,
    }
}

/// The text of the first level-1 heading.
pub open spec fn first_h1(hs: Seq<HeadingV>) -> Option<Seq<char>>
    decreases hs.len(),
{
    if hs.len() == 0 {
        None
    } else if hs[0].level == 1 {
        Some(hs[0].text)
    } else {
        first_h1(hs.drop_first())
    }
}

/// The title of a note: the frontmatter title, else the first level-1
/// heading, else the file stem, else the path.
pub open spec fn note_title(fm: FrontmatterV, hs: Seq<HeadingV>, path: Seq<char>) -> Seq<char> {
    match fm.title {
        Some(t) => t,
        None => match first_h1(hs) {
            Some(t) => t,
            None => match file_stem(path) {
                Some(s) => s,
                None => path,
            },
        },
    }
}

/// The number of lines of a note, counted as its line breaks (`'\n'`).
pub open spec fn line_breaks(s: Seq<char>) -> nat
    decreases s.len(),
{
    if s.len() == 0 {
        0
    } else {
        line_breaks(s.drop_last()) + (if s.last() == '\n' { 1nat } else { 0nat })
    }
}

/// The number of whitespace-separated words (`split_whitespace().count()`).
pub open spec fn word_count(s: Seq<char>) -> nat
    decreases s.len(),
{
    if s.len() == 0 {
        0
    } else if !is_ws(s.last()) && (s.len() == 1 || is_ws(s[s.len() - 2])) {
        word_count(s.drop_last()) + 1
    } else {
        word_count(s.drop_last())
    }
}

/// The key `created`.
pub open spec fn created_key() -> Seq<char> {
    seq!['c', 'r', 'e', 'a', 't', 'e', 'd']
}

/// The key `modified`.
pub open spec fn modified_key() -> Seq<char> {
    seq!['m', 'o', 'd', 'i', 'f', 'i', 'e', 'd']
}

/// The note that `content` at `path` describes, and its body (the content
/// after the frontmatter).
pub open spec fn note_of(path: Seq<char>, content: Seq<char>) -> (NoteV, Seq<char>) {
    let (fm, body) = split_frontmatter(content);
    let hs = headings(body);
    (
        NoteV {
            path,
            title: note_title(fm, hs, path),
            tags: merge_tags(fm.tags, inline_tags(body)),
            frontmatter: fm,
            outgoing_links: links_from(body, 0),
            headings: hs,
            created: raw_text(fm.raw, created_key()),
            modified: raw_text(fm.raw, modified_key()),
            word_count: word_count(body),
            line_count: line_breaks(content),
        },
        body,
    )
}

/// Whether `v` holds a string equal to `x`.
pub fn contains_string(v: &Vec<String>, x: &String) -> (r: bool)
    ensures
        r == strs(v@).contains(x@),
{
    let mut i: usize = 0;
    while i < v.len()
        invariant
            i <= v.len(),
            forall|j: int| 0 <= j < i ==> strs(v@)[j] != x@,
        decreases v.len() - i,
    {
        if v[i] == *x {
            assert(strs(v@)[i as int] == x@);
            return true;
        }
        i += 1;
    }
    false
}

/// Appends to `base` the items of `extra` it does not hold yet.
pub fn merge_tag_lists(base: &Vec<String>, extra: &Vec<String>) -> (r: Vec<String>)
    ensures
        strs(r@) == merge_tags(strs(base@), strs(extra@)),
{
    let mut r = copy_strings(base);
    let mut i: usize = 0;
    assert(strs(extra@).take(0) =~= Seq::<Seq<char>>::empty());
    while i < extra.len()
        invariant
            i <= extra.len(),
            strs(r@) == merge_tags(strs(base@), strs(extra@).take(i as int)),
        decreases extra.len() - i,
    {
        assert(strs(extra@).take(i + 1).drop_last() =~= strs(extra@).take(i as int));
        assert(strs(extra@)[i as int] == extra@[i as int]@);
        if !contains_string(&r, &extra[i]) {
            let ghost before = strs(r@);
            r.push(extra[i].clone());
            assert(strs(r@) =~= before.push(extra@[i as int]@));
        }
        i += 1;
    }
    assert(strs(extra@).take(extra.len() as int) =~= strs(extra@));
    r
}

/// The file stem of a path.
pub fn path_stem(p: &Vec<char>) -> (r: Option<Vec<char>>)
    ensures
        crate::markdown::opt_chars(r) == file_stem(p@),
{
    let name = match crate::path::file_name_of(p) {
        Some(n) => n,
        None => return None,
    };
    let dot = rfind_char(&name, '.');
    proof {
        crate::text::lemma_last_index(name@, '.');
    }
    match dot {
        Some(d) => if d == 0 {
            Some(name)
        } else {
            Some(slice(&name, 0, d))
        },
        None => Some(name),
    }
}

/// The number of whitespace-separated words.
pub fn count_words(s: &Vec<char>) -> (r: usize)
    ensures
        r == word_count(s@),
{
    let mut n: usize = 0;
    let mut i: usize = 0;
    assert(s@.take(0) =~= Seq::<char>::empty());
    while i < s.len()
        invariant
            i <= s.len(),
            n == word_count(s@.take(i as int)),
            n <= i,
        decreases s.len() - i,
    {
        assert(s@.take(i + 1).drop_last() =~= s@.take(i as int));
        if !is_whitespace(s[i]) && (i == 0 || is_whitespace(s[i - 1])) {
            n += 1;
        }
        i += 1;
    }
    assert(s@.take(s.len() as int) =~= s@);
    n
}

/// The key `created` as characters.
fn created_str() -> (r: &'static str)
    ensures
        r@ == created_key(),
{
    let r = "created";
    proof {
        reveal_strlit("created");
    }
    assert(r@ =~= created_key());
    r
}

/// The key `modified` as characters.
fn modified_str() -> (r: &'static str)
    ensures
        r@ == modified_key(),
{
    let r = "modified";
    proof {
        reveal_strlit("modified");
    }
    assert(r@ =~= modified_key());
    r
}

/// The text of the first level-1 heading.
fn first_h1_text(hs: &Vec<Heading>) -> (r: Option<String>)
    ensures
        opt_view(r) == first_h1(heading_views(hs@)),
{
    let ghost hv = heading_views(hs@);
    let mut i: usize = 0;
    assert(hv.subrange(0, hv.len() as int) =~= hv);
    while i < hs.len()
        invariant
            i <= hs.len(),
            hv == heading_views(hs@),
            first_h1(hv) == first_h1(hv.subrange(i as int, hv.len() as int)),
        decreases hs.len() - i,
    {
        assert(hv[i as int] == hs@[i as int]@);
        if hs[i].level == 1 {
            return Some(hs[i].text.clone());
        }
        assert(hv.subrange(i as int, hv.len() as int).drop_first() =~= hv.subrange(
            i + 1,
            hv.len() as int,
        ));
        i += 1;
    }
    None
}

/// The number of line breaks in `v`.
fn count_line_breaks(v: &Vec<char>) -> (r: usize)
    ensures
        r == line_breaks(v@),
{
    let mut n: usize = 0;
    let mut i: usize = 0;
    while i < v.len()
        invariant
            i <= v.len(),
            n <= i,
            n == line_breaks(v@.take(i as int)),
        decreases v.len() - i,
    {
        assert(v@.take(i + 1).drop_last() =~= v@.take(i as int));
        if v[i] == '\n' {
            n += 1;
        }
        i += 1;
    }
    assert(v@.take(v.len() as int) =~= v@);
    n
}

/// Parses a Markdown note into its [`NoteData`] and its body (everything
/// after the frontmatter).
pub fn parse_note_chars(path: &Vec<char>, content: &Vec<char>) -> (r: (NoteData, Vec<char>))
    ensures
        (r.0@, r.1@) == note_of(path@, content@),
{
    let (frontmatter, body) = split_frontmatter_chars(content);
    let hs = headings_in(&body);
    let links = wikilinks_in(&body);
    let inline = to_strings(&inline_tags_in(&body));
    let tags = merge_tag_lists(&frontmatter.tags, &inline);
    let title = match &frontmatter.title {
        Some(t) => t.clone(),
        None => match first_h1_text(&hs) {
            Some(t) => t,
            None => match path_stem(path) {
                Some(s) => from_chars(&s),
                None => from_chars(path),
            },
        },
    };
    let created = frontmatter.raw_str(created_str());
    let modified = frontmatter.raw_str(modified_str());
    let word_count = count_words(&body);
    let line_count = count_line_breaks(content);
    let note = NoteData {
        path: from_chars(path),
        title,
        tags,
        frontmatter,
        outgoing_links: links,
        headings: hs,
        created,
        modified,
        word_count,
        line_count,
    };
    (note, body)
}

/// Parses a Markdown file into its [`NoteData`] and the body string
/// (everything after the frontmatter).
pub fn parse_note(path: &str, content: &str) -> (r: (NoteData, String))
    ensures
        (r.0@, r.1@) == note_of(path@, content@),
{
    let p = to_chars(path);
    let c = to_chars(content);
    let (note, body) = parse_note_chars(&p, &c);
    (note, from_chars(&body))
}

/// A copy of a note.
pub fn copy_note(n: &NoteData) -> (r: NoteData)
    ensures
        r@ == n@,
{
    NoteData {
        path: n.path.clone(),
        title: n.title.clone(),
        tags: copy_strings(&n.tags),
        frontmatter: crate::frontmatter::copy_frontmatter(&n.frontmatter),
        outgoing_links: crate::markdown::copy_links(&n.outgoing_links),
        headings: crate::markdown::copy_headings(&n.headings),
        created: crate::markdown::copy_opt(&n.created),
        modified: crate::markdown::copy_opt(&n.modified),
        word_count: n.word_count,
        line_count: n.line_count,
    }
}

// ---------------------------------------------------------------------------
// Laws
// ---------------------------------------------------------------------------

/// What `first_h1` finds: the text of the first level-1 heading, and
/// nothing when no heading has level 1.
proof fn lemma_first_h1(hs: Seq<HeadingV>)
    ensures
        first_h1(hs) matches Some(t) ==> exists|i: int|
            0 <= i < hs.len() && hs[i].level == 1 && t == hs[i].text && forall|j: int|
                0 <= j < i ==> hs[j].level != 1,
        first_h1(hs) is None ==> forall|i: int| 0 <= i < hs.len() ==> hs[i].level != 1,
    decreases hs.len(),
{
    if hs.len() > 0 && hs[0].level != 1 {
        let rest = hs.drop_first();
        lemma_first_h1(rest);
        if let Some(t) = first_h1(rest) {
            let i = choose|i: int|
                0 <= i < rest.len() && rest[i].level == 1 && t == rest[i].text && forall|j: int|
                    0 <= j < i ==> rest[j].level != 1;
            assert(hs[i + 1] == rest[i]);
            assert forall|j: int| 0 <= j < i + 1 implies hs[j].level != 1 by {
                if j > 0 {
                    assert(hs[j] == rest[j - 1]);
                }
            }
        } else {
            assert forall|i: int| 0 <= i < hs.len() implies hs[i].level != 1 by {
                if i > 0 {
                    assert(hs[i] == rest[i - 1]);
                }
            }
        }
    }
}

/// The title of a note: the frontmatter title when there is one; else the
/// text of the first heading of level 1 (never a heading of another
/// level); else, with no level-1 heading, the file stem of its path, or the
/// path itself when it has no stem.
pub proof fn law_title_priority(path: Seq<char>, content: Seq<char>)
    ensures
        note_of(path, content).0.frontmatter.title matches Some(t) ==> note_of(path, content).0.title
            == t,
        note_of(path, content).0.frontmatter.title is None && (exists|i: int|
            0 <= i < note_of(path, content).0.headings.len() && note_of(path, content).0.headings[i].level
                == 1) ==> exists|i: int|
            0 <= i < note_of(path, content).0.headings.len() && note_of(path, content).0.headings[i].level
                == 1 && note_of(path, content).0.title == note_of(path, content).0.headings[i].text
                && forall|j: int| 0 <= j < i ==> note_of(path, content).0.headings[j].level != 1,
        note_of(path, content).0.frontmatter.title is None && (forall|i: int|
            0 <= i < note_of(path, content).0.headings.len() ==> note_of(path, content).0.headings[i].level
                != 1) ==> note_of(path, content).0.title == (match file_stem(path) {
            Some(st) => st,
            None => path,
        }),
{
    let n = note_of(path, content).0;
    lemma_first_h1(n.headings);
    if n.frontmatter.title is None && first_h1(n.headings) is Some {
        let t = first_h1(n.headings)->0;
        let i = choose|i: int|
            0 <= i < n.headings.len() && n.headings[i].level == 1 && t == n.headings[i].text
                && forall|j: int| 0 <= j < i ==> n.headings[j].level != 1;
        assert(n.title == n.headings[i].text);
    }
}

} // verus!
