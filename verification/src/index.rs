//! The vault index: notes, the link graph, the reverse backlink index and
//! the tag index, built from note contents and kept up to date one file at
//! a time.
use vstd::prelude::*;

use crate::frontmatter::strs;
use crate::markdown::{link_views, Wikilink, WikilinkV};
use crate::note::{
    file_stem, merge_tag_lists, merge_tags, note_of, parse_note_chars, path_stem, NoteData, NoteV,
};
use crate::index_laws::{
    backlinks_resolved, corresponds, edges_resolved, lemma_indexed_wf, law_index_file_links,
    law_index_file_tags, law_rebuild_links, law_rebuild_tags, law_remove_file_links,
    law_remove_file_tags, tags_consistent,
};
use crate::text::{
    contains, contains_seq, copy_chars, ends_with, from_chars, has_suffix, lines, lowercase,
    split_lines, str_lowercase, to_chars, trim, trimmed, views,
};

verus! {

// ---------------------------------------------------------------------------
// IndexerError
// ---------------------------------------------------------------------------

/// An error of the indexer.
pub enum IndexerError {
    Io(std::io::Error),
    Parse(String),
}

impl IndexerError {
    /// The error's message: `indexer I/O error: {error}` or
    /// `indexer parse error: {msg}`.
    pub fn message(&self) -> (r: String)
        ensures
            self matches IndexerError::Parse(m) ==> r@ == "indexer parse error: "@ + m@,
            self matches IndexerError::Io(_) ==> exists|t: Seq<char>| r@ == "indexer I/O error: "@ + t,
    {
        match self {
            IndexerError::Io(e) => {
                let t = crate::os_error::io_error_text(e);
                let mut r = String::from_str("indexer I/O error: ");
                r.append(t.as_str());
                r
            },
            IndexerError::Parse(m) => {
                let mut r = String::from_str("indexer parse error: ");
                r.append(m.as_str());
                r
            },
        }
    }
}


// ---------------------------------------------------------------------------
// Data
// ---------------------------------------------------------------------------

/// A note linking to another one.
pub struct Backlink {
    pub source_path: String,
    pub source_title: String,
    /// The trimmed line of the source body that holds the link.
    pub context: String,
}

/// The mathematical value of a [`Backlink`].
pub struct BacklinkV {
    pub source_path: Seq<char>,
    pub source_title: Seq<char>,
    pub context: Seq<char>,
}

impl View for Backlink {
    type V = BacklinkV;

    open spec fn view(&self) -> BacklinkV {
        BacklinkV {
            source_path: self.source_path@,
            source_title: self.source_title@,
            context: self.context@,
        }
    }
}

/// A resolved link from one note to another.
pub struct GraphEdge {
    pub source: String,
    pub target: String,
}

/// The mathematical value of a [`GraphEdge`].
pub struct EdgeV {
    pub source: Seq<char>,
    pub target: Seq<char>,
}

impl View for GraphEdge {
    type V = EdgeV;

    open spec fn view(&self) -> EdgeV {
        EdgeV { source: self.source@, target: self.target@ }
    }
}

/// A copy of an edge.
pub fn copy_edge(e: &GraphEdge) -> (r: GraphEdge)
    ensures
        r@ == e@,
{
    GraphEdge { source: e.source.clone(), target: e.target.clone() }
}

/// The in-memory index of a vault.
pub struct VaultIndex {
    /// The notes, one per path.
    pub notes: Vec<NoteData>,
    /// Backlinks, each with the path of the note it points to, in the order
    /// they were found.
    pub backlinks: Vec<(String, Backlink)>,
    /// Resolved links, in the order they were found.
    pub graph_edges: Vec<GraphEdge>,
    /// Each tag with the paths of the notes that carry it (one entry per
    /// occurrence of the tag in a note's tag list).
    pub tag_index: Vec<(String, Vec<String>)>,
}

/// The mathematical value of a [`VaultIndex`].
pub struct IndexV {
    pub notes: Seq<NoteV>,
    pub backlinks: Seq<(Seq<char>, BacklinkV)>,
    pub edges: Seq<EdgeV>,
    pub tags: Seq<(Seq<char>, Seq<Seq<char>>)>,
}

/// Values of notes.
pub open spec fn note_views(v: Seq<NoteData>) -> Seq<NoteV> {
    v.map_values(|n: NoteData| n@)
}

/// Values of backlink entries.
pub open spec fn backlink_views(v: Seq<(String, Backlink)>) -> Seq<(Seq<char>, BacklinkV)> {
    v.map_values(|e: (String, Backlink)| (e.0@, e.1@))
}

/// Values of edges.
pub open spec fn edge_views(v: Seq<GraphEdge>) -> Seq<EdgeV> {
    v.map_values(|e: GraphEdge| e@)
}

/// Values of tag entries.
pub open spec fn tag_views(v: Seq<(String, Vec<String>)>) -> Seq<(Seq<char>, Seq<Seq<char>>)> {
    v.map_values(|e: (String, Vec<String>)| (e.0@, strs(e.1@)))
}

impl View for VaultIndex {
    type V = IndexV;

    open spec fn view(&self) -> IndexV {
        IndexV {
            notes: note_views(self.notes@),
            backlinks: backlink_views(self.backlinks@),
            edges: edge_views(self.graph_edges@),
            tags: tag_views(self.tag_index@),
        }
    }
}

/// No two notes share a path and no two tag entries share a tag.
pub open spec fn index_wf(i: IndexV) -> bool {
    &&& forall|a: int, b: int|
        0 <= a < b < i.notes.len() ==> #[trigger] i.notes[a].path != #[trigger] i.notes[b].path
    &&& forall|a: int, b: int|
        0 <= a < b < i.tags.len() ==> #[trigger] i.tags[a].0 != #[trigger] i.tags[b].0
}

/// The empty index.
pub open spec fn empty_index() -> IndexV {
    IndexV { notes: seq![], backlinks: seq![], edges: seq![], tags: seq![] }
}

// ---------------------------------------------------------------------------
// Notes by path
// ---------------------------------------------------------------------------

/// The position of the note with path `p`.
pub open spec fn note_pos(notes: Seq<NoteV>, p: Seq<char>) -> Option<int>
    decreases notes.len(),
{
    if notes.len() == 0 {
        None
    } else if notes[0].path == p {
        Some(0)
    } else {
        crate::text::shift(note_pos(notes.drop_first(), p), 1)
    }
}

/// Facts about `note_pos`.
pub proof fn lemma_note_pos(notes: Seq<NoteV>, p: Seq<char>)
    ensures
        note_pos(notes, p) matches Some(i) ==> 0 <= i < notes.len() && notes[i].path == p,
        note_pos(notes, p) is None ==> forall|j: int| 0 <= j < notes.len() ==> notes[j].path != p,
    decreases notes.len(),
{
    if notes.len() > 0 && notes[0].path != p {
        lemma_note_pos(notes.drop_first(), p);
        assert forall|j: int| 1 <= j < notes.len() implies notes[j] == notes.drop_first()[j - 1] by {}
    }
}

/// The note with path `p`.
pub open spec fn note_get(notes: Seq<NoteV>, p: Seq<char>) -> Option<NoteV> {
    match note_pos(notes, p) {
        Some(i) => Some(notes[i]),
        None => None,
    }
}

/// Some note has path `p`.
pub open spec fn has_path(notes: Seq<NoteV>, p: Seq<char>) -> bool {
    exists|i: int| 0 <= i < notes.len() && notes[i].path == p
}

/// Stores `n` under its path: replaces the note with that path, or appends.
pub open spec fn notes_insert(notes: Seq<NoteV>, n: NoteV) -> Seq<NoteV> {
    match note_pos(notes, n.path) {
        Some(i) => notes.update(i, n),
        None => notes.push(n),
    }
}

/// Removes the note with path `p`.
pub open spec fn notes_remove(notes: Seq<NoteV>, p: Seq<char>) -> Seq<NoteV> {
    match note_pos(notes, p) {
        Some(i) => notes.remove(i),
        None => notes,
    }
}

/// The position of the note with path `p`.
pub fn find_note(notes: &Vec<NoteData>, p: &Vec<char>) -> (r: Option<usize>)
    ensures
        crate::frontmatter::opt_usize(r) == note_pos(note_views(notes@), p@),
        r matches Some(i) ==> i < notes.len(),
{
    let ghost nv = note_views(notes@);
    let mut i: usize = 0;
    assert(nv.subrange(0, nv.len() as int) =~= nv);
    while i < notes.len()
        invariant
            i <= notes.len(),
            nv == note_views(notes@),
            note_pos(nv, p@) == crate::text::shift(
                note_pos(nv.subrange(i as int, nv.len() as int), p@),
                i as int,
            ),
        decreases notes.len() - i,
    {
        assert(nv[i as int] == notes@[i as int]@);
        let q = to_chars(notes[i].path.as_str());
        if crate::text::chars_eq(&q, p) {
            return Some(i);
        }
        assert(nv.subrange(i as int, nv.len() as int).drop_first() =~= nv.subrange(
            i + 1,
            nv.len() as int,
        ));
        i += 1;
    }
    None
}

// ---------------------------------------------------------------------------
// Link resolution
// ---------------------------------------------------------------------------

/// The suffix `.md`.
pub open spec fn md_ext() -> Seq<char> {
    seq!['.', 'm', 'd']
}

/// The stem of a path, or nothing.
pub open spec fn stem_or_empty(p: Seq<char>) -> Seq<char> {
    match file_stem(p) {
        Some(s) => s,
        None => seq![],
    }
}

/// The path of the first note (in index order) that satisfies `f`.
pub open spec fn first_note(notes: Seq<NoteV>, f: spec_fn(NoteV) -> bool) -> Option<Seq<char>>
    decreases notes.len(),
{
    if notes.len() == 0 {
        None
    } else if f(notes[0]) {
        Some(notes[0].path)
    } else {
        first_note(notes.drop_first(), f)
    }
}

/// The first found path among the case-insensitive matches of `t`.
pub open spec fn resolve_folded(t: Seq<char>, notes: Seq<NoteV>) -> Option<Seq<char>> {
    let tl = str_lowercase(t);
    match first_note(
        notes,
        |n: NoteV| str_lowercase(n.path) == tl || str_lowercase(n.path) == tl + md_ext(),
    ) {
        Some(p) => Some(p),
        None => match first_note(notes, |n: NoteV| str_lowercase(n.title) == tl) {
            Some(p) => Some(p),
            None => first_note(notes, |n: NoteV| str_lowercase(stem_or_empty(n.path)) == tl),
        },
    }
}

/// Resolves a link target to a note path. In order: the path with `.md`
/// appended (unless present), the path itself, a note title, a file stem,
/// then the same case-insensitively (path with or without `.md`, title,
/// stem). Among notes matching in one step the first in index order wins.
pub open spec fn resolve(target: Seq<char>, notes: Seq<NoteV>) -> Option<Seq<char>> {
    let t = trimmed(target);
    let with_ext = if ends_with(t, md_ext()) {
        t
    } else {
        t + md_ext()
    };
    if has_path(notes, with_ext) {
        Some(with_ext)
    } else if has_path(notes, t) {
        Some(t)
    } else {
        match first_note(notes, |n: NoteV| n.title == t) {
            Some(p) => Some(p),
            None => match first_note(notes, |n: NoteV| stem_or_empty(n.path) == t) {
                Some(p) => Some(p),
                None => resolve_folded(t, notes),
            },
        }
    }
}

/// A path returned by `first_note` is a note's path.
pub proof fn lemma_first_note(notes: Seq<NoteV>, f: spec_fn(NoteV) -> bool)
    ensures
        first_note(notes, f) matches Some(p) ==> has_path(notes, p),
    decreases notes.len(),
{
    if notes.len() > 0 && !f(notes[0]) {
        lemma_first_note(notes.drop_first(), f);
        if let Some(p) = first_note(notes.drop_first(), f) {
            let i = choose|i: int| 0 <= i < notes.drop_first().len() && notes.drop_first()[i].path == p;
            assert(notes[i + 1].path == p);
        }
    }
}

/// Link resolution only ever yields the path of a note in the index.
pub proof fn lemma_resolve_in_index(target: Seq<char>, notes: Seq<NoteV>)
    ensures
        resolve(target, notes) matches Some(p) ==> has_path(notes, p),
{
    let t = trimmed(target);
    let tl = str_lowercase(t);
    lemma_first_note(notes, |n: NoteV| n.title == t);
    lemma_first_note(notes, |n: NoteV| stem_or_empty(n.path) == t);
    lemma_first_note(
        notes,
        |n: NoteV| str_lowercase(n.path) == tl || str_lowercase(n.path) == tl + md_ext(),
    );
    lemma_first_note(notes, |n: NoteV| str_lowercase(n.title) == tl);
    lemma_first_note(notes, |n: NoteV| str_lowercase(stem_or_empty(n.path)) == tl);
}

/// The suffix `.md` as characters.
fn md_chars() -> (r: Vec<char>)
    ensures
        r@ == md_ext(),
{
    let mut r: Vec<char> = Vec::new();
    r.push('.');
    r.push('m');
    r.push('d');
    assert(r@ =~= md_ext());
    r
}

/// `a` followed by `b`.
fn concat(a: &Vec<char>, b: &Vec<char>) -> (r: Vec<char>)
    ensures
        r@ == a@ + b@,
{
    let mut r = copy_chars(a);
    let mut i: usize = 0;
    while i < b.len()
        invariant
            i <= b.len(),
            r@ == a@ + b@.take(i as int),
        decreases b.len() - i,
    {
        r.push(b[i]);
        assert(a@ + b@.take(i + 1) =~= (a@ + b@.take(i as int)).push(b@[i as int]));
        i += 1;
    }
    assert(b@.take(b.len() as int) =~= b@);
    r
}

/// The stem of a path, or nothing.
fn stem_chars(p: &Vec<char>) -> (r: Vec<char>)
    ensures
        r@ == stem_or_empty(p@),
{
    match path_stem(p) {
        Some(s) => s,
        None => Vec::new(),
    }
}

/// Which test a resolution pass applies to each note.
enum Pass {
    Title,
    Stem,
    FoldedPath,
    FoldedTitle,
    FoldedStem,
}

/// The predicate of a pass.
spec fn pass_pred(pass: Pass, t: Seq<char>) -> spec_fn(NoteV) -> bool {
    let tl = str_lowercase(t);
    match pass {
        Pass::Title => |n: NoteV| n.title == t,
        Pass::Stem => |n: NoteV| stem_or_empty(n.path) == t,
        Pass::FoldedPath => |n: NoteV|
            str_lowercase(n.path) == tl || str_lowercase(n.path) == tl + md_ext(),
        Pass::FoldedTitle => |n: NoteV| str_lowercase(n.title) == tl,
        Pass::FoldedStem => |n: NoteV| str_lowercase(stem_or_empty(n.path)) == tl,
    }
}

/// Whether a note passes the test of `pass` for target `t`.
fn passes(pass: &Pass, n: &NoteData, t: &Vec<char>) -> (r: bool)
    ensures
        r == (pass_pred(*pass, t@))(n@),
{
    let path = to_chars(n.path.as_str());
    match pass {
        Pass::Title => {
            let title = to_chars(n.title.as_str());
            crate::text::chars_eq(&title, t)
        },
        Pass::Stem => crate::text::chars_eq(&stem_chars(&path), t),
        Pass::FoldedPath => {
            let tl = lowercase(t);
            let pl = lowercase(&path);
            crate::text::chars_eq(&pl, &tl) || crate::text::chars_eq(&pl, &concat(&tl, &md_chars()))
        },
        Pass::FoldedTitle => {
            let title = to_chars(n.title.as_str());
            crate::text::chars_eq(&lowercase(&title), &lowercase(t))
        },
        Pass::FoldedStem => crate::text::chars_eq(&lowercase(&stem_chars(&path)), &lowercase(t)),
    }
}

/// The path of the first note passing the test of `pass`.
fn first_passing(notes: &Vec<NoteData>, pass: Pass, t: &Vec<char>) -> (r: Option<String>)
    ensures
        crate::markdown::opt_view(r) == first_note(note_views(notes@), pass_pred(pass, t@)),
{
    let ghost nv = note_views(notes@);
    let mut i: usize = 0;
    assert(nv.subrange(0, nv.len() as int) =~= nv);
    while i < notes.len()
        invariant
            i <= notes.len(),
            nv == note_views(notes@),
            first_note(nv, pass_pred(pass, t@)) == first_note(
                nv.subrange(i as int, nv.len() as int),
                pass_pred(pass, t@),
            ),
        decreases notes.len() - i,
    {
        assert(nv[i as int] == notes@[i as int]@);
        if passes(&pass, &notes[i], t) {
            return Some(notes[i].path.clone());
        }
        assert(nv.subrange(i as int, nv.len() as int).drop_first() =~= nv.subrange(
            i + 1,
            nv.len() as int,
        ));
        i += 1;
    }
    None
}

/// Resolves a wikilink target to a note path in the index.
pub fn resolve_target(target: &Vec<char>, notes: &Vec<NoteData>) -> (r: Option<String>)
    ensures
        crate::markdown::opt_view(r) == resolve(target@, note_views(notes@)),
{
    let ghost nv = note_views(notes@);
    let t = trim(target);
    let md = md_chars();
    let with_ext = if has_suffix(&t, &md) {
        copy_chars(&t)
    } else {
        concat(&t, &md)
    };
    match find_note(notes, &with_ext) {
        Some(i) => {
            proof {
                lemma_note_pos(nv, with_ext@);
            }
            return Some(from_chars(&with_ext));
        },
        None => {
            proof {
                lemma_note_pos(nv, with_ext@);
            }
        },
    }
    match find_note(notes, &t) {
        Some(i) => {
            proof {
                lemma_note_pos(nv, t@);
            }
            return Some(from_chars(&t));
        },
        None => {
            proof {
                lemma_note_pos(nv, t@);
            }
        },
    }
    let ghost tv = t@;
    assert(pass_pred(Pass::Title, tv) == (|n: NoteV| n.title == tv));
    assert(pass_pred(Pass::Stem, tv) == (|n: NoteV| stem_or_empty(n.path) == tv));
    assert(pass_pred(Pass::FoldedPath, tv) == (|n: NoteV|
        str_lowercase(n.path) == str_lowercase(tv) || str_lowercase(n.path) == str_lowercase(tv)
            + md_ext()));
    assert(pass_pred(Pass::FoldedTitle, tv) == (|n: NoteV|
        str_lowercase(n.title) == str_lowercase(tv)));
    assert(pass_pred(Pass::FoldedStem, tv) == (|n: NoteV|
        str_lowercase(stem_or_empty(n.path)) == str_lowercase(tv)));
    if let Some(p) = first_passing(notes, Pass::Title, &t) {
        return Some(p);
    }
    if let Some(p) = first_passing(notes, Pass::Stem, &t) {
        return Some(p);
    }
    if let Some(p) = first_passing(notes, Pass::FoldedPath, &t) {
        return Some(p);
    }
    if let Some(p) = first_passing(notes, Pass::FoldedTitle, &t) {
        return Some(p);
    }
    first_passing(notes, Pass::FoldedStem, &t)
}

// ---------------------------------------------------------------------------
// Link context
// ---------------------------------------------------------------------------

/// The first line that contains `raw`.
pub open spec fn first_line_with(ls: Seq<Seq<char>>, raw: Seq<char>) -> Option<Seq<char>>
    decreases ls.len(),
{
    if ls.len() == 0 {
        None
    } else if contains_seq(ls[0], raw) {
        Some(ls[0])
    } else {
        first_line_with(ls.drop_first(), raw)
    }
}

/// The context of a link in a body: the trimmed first line holding the
/// link's raw text, or the raw text itself.
pub open spec fn context_of(body: Seq<char>, raw: Seq<char>) -> Seq<char> {
    match first_line_with(lines(body), raw) {
        Some(l) => trimmed(l),
        None => raw,
    }
}

/// Extracts the line containing a link as context snippet.
pub fn link_context(body: &Vec<char>, raw: &Vec<char>) -> (r: Vec<char>)
    ensures
        r@ == context_of(body@, raw@),
{
    let ls = split_lines(body);
    let ghost lv = views(ls@);
    let mut i: usize = 0;
    assert(lv.subrange(0, lv.len() as int) =~= lv);
    while i < ls.len()
        invariant
            i <= ls.len(),
            lv == views(ls@),
            lv == lines(body@),
            first_line_with(lv, raw@) == first_line_with(lv.subrange(i as int, lv.len() as int), raw@),
        decreases ls.len() - i,
    {
        assert(lv[i as int] == ls@[i as int]@);
        if contains(&ls[i], raw) {
            return trim(&ls[i]);
        }
        assert(lv.subrange(i as int, lv.len() as int).drop_first() =~= lv.subrange(
            i + 1,
            lv.len() as int,
        ));
        i += 1;
    }
    copy_chars(raw)
}

/// Extracts the line containing a wikilink as context snippet.
pub fn extract_link_context(body: &str, link: &Wikilink) -> (r: String)
    ensures
        r@ == context_of(body@, link.raw@),
{
    let b = to_chars(body);
    let raw = to_chars(link.raw.as_str());
    from_chars(&link_context(&b, &raw))
}

// ---------------------------------------------------------------------------
// Tag index
// ---------------------------------------------------------------------------

/// The position of the entry for tag `t`.
pub open spec fn tag_pos(tags: Seq<(Seq<char>, Seq<Seq<char>>)>, t: Seq<char>) -> Option<int>
    decreases tags.len(),
{
    if tags.len() == 0 {
        None
    } else if tags[0].0 == t {
        Some(0)
    } else {
        crate::text::shift(tag_pos(tags.drop_first(), t), 1)
    }
}

/// Facts about `tag_pos`.
pub proof fn lemma_tag_pos(tags: Seq<(Seq<char>, Seq<Seq<char>>)>, t: Seq<char>)
    ensures
        tag_pos(tags, t) matches Some(i) ==> 0 <= i < tags.len() && tags[i].0 == t,
        tag_pos(tags, t) is None ==> forall|j: int| 0 <= j < tags.len() ==> tags[j].0 != t,
    decreases tags.len(),
{
    if tags.len() > 0 && tags[0].0 != t {
        lemma_tag_pos(tags.drop_first(), t);
        assert forall|j: int| 1 <= j < tags.len() implies tags[j] == tags.drop_first()[j - 1] by {}
    }
}

/// Records that the note at `p` carries tag `t`.
pub open spec fn tag_push(tags: Seq<(Seq<char>, Seq<Seq<char>>)>, t: Seq<char>, p: Seq<char>) -> Seq<
    (Seq<char>, Seq<Seq<char>>),
> {
    match tag_pos(tags, t) {
        Some(i) => tags.update(i, (t, tags[i].1.push(p))),
        None => tags.push((t, seq![p])),
    }
}

/// Records that the note at `p` carries each tag of `ts`.
pub open spec fn tags_add(tags: Seq<(Seq<char>, Seq<Seq<char>>)>, p: Seq<char>, ts: Seq<Seq<char>>) -> Seq<
    (Seq<char>, Seq<Seq<char>>),
>
    decreases ts.len(),
{
    if ts.len() == 0 {
        tags
    } else {
        tag_push(tags_add(tags, p, ts.drop_last()), ts.last(), p)
    }
}

/// Paths other than `p`.
pub open spec fn other_than(p: Seq<char>) -> spec_fn(Seq<char>) -> bool {
    |q: Seq<char>| q != p
}

/// Removes `p` from the paths of tag `t` (the entry itself stays).
pub open spec fn tag_retain(tags: Seq<(Seq<char>, Seq<Seq<char>>)>, t: Seq<char>, p: Seq<char>) -> Seq<
    (Seq<char>, Seq<Seq<char>>),
> {
    match tag_pos(tags, t) {
        Some(i) => tags.update(i, (t, tags[i].1.filter(other_than(p)))),
        None => tags,
    }
}

/// Removes `p` from the paths of each tag of `ts`.
pub open spec fn tags_remove(tags: Seq<(Seq<char>, Seq<Seq<char>>)>, p: Seq<char>, ts: Seq<Seq<char>>) -> Seq<
    (Seq<char>, Seq<Seq<char>>),
>
    decreases ts.len(),
{
    if ts.len() == 0 {
        tags
    } else {
        tag_retain(tags_remove(tags, p, ts.drop_last()), ts.last(), p)
    }
}

/// The tags under which a note is indexed: frontmatter tags, then the
/// note's tags not among them.
pub open spec fn all_tags(n: NoteV) -> Seq<Seq<char>> {
    merge_tags(n.frontmatter.tags, n.tags)
}

/// No two tag entries share a tag.
pub open spec fn tags_unique(tags: Seq<(Seq<char>, Seq<Seq<char>>)>) -> bool {
    forall|a: int, b: int| 0 <= a < b < tags.len() ==> #[trigger] tags[a].0 != #[trigger] tags[b].0
}

/// Adding tags keeps tag entries unique.
pub proof fn lemma_tags_add_unique(tags: Seq<(Seq<char>, Seq<Seq<char>>)>, p: Seq<char>, ts: Seq<Seq<char>>)
    requires
        tags_unique(tags),
    ensures
        tags_unique(tags_add(tags, p, ts)),
    decreases ts.len(),
{
    if ts.len() > 0 {
        let prev = tags_add(tags, p, ts.drop_last());
        lemma_tags_add_unique(tags, p, ts.drop_last());
        lemma_tag_pos(prev, ts.last());
        let next = tags_add(tags, p, ts);
        assert forall|a: int, b: int| 0 <= a < b < next.len() implies #[trigger] next[a].0
            != #[trigger] next[b].0 by {
            if b == prev.len() {
                assert(next[a] == prev[a]);
            } else {
                assert(next[a].0 == prev[a].0 && next[b].0 == prev[b].0);
            }
        }
    }
}

/// Removing tag paths keeps tag entries unique.
pub proof fn lemma_tags_remove_unique(tags: Seq<(Seq<char>, Seq<Seq<char>>)>, p: Seq<char>, ts: Seq<Seq<char>>)
    requires
        tags_unique(tags),
    ensures
        tags_unique(tags_remove(tags, p, ts)),
        tags_remove(tags, p, ts).len() == tags.len(),
    decreases ts.len(),
{
    if ts.len() > 0 {
        let prev = tags_remove(tags, p, ts.drop_last());
        lemma_tags_remove_unique(tags, p, ts.drop_last());
        lemma_tag_pos(prev, ts.last());
        let next = tags_remove(tags, p, ts);
        assert forall|a: int, b: int| 0 <= a < b < next.len() implies #[trigger] next[a].0
            != #[trigger] next[b].0 by {
            assert(next[a].0 == prev[a].0 && next[b].0 == prev[b].0);
        }
    }
}

/// The position of the entry for tag `t`.
fn find_tag(tags: &Vec<(String, Vec<String>)>, t: &String) -> (r: Option<usize>)
    ensures
        crate::frontmatter::opt_usize(r) == tag_pos(tag_views(tags@), t@),
        r matches Some(i) ==> i < tags.len(),
{
    let ghost tv = tag_views(tags@);
    let mut i: usize = 0;
    assert(tv.subrange(0, tv.len() as int) =~= tv);
    while i < tags.len()
        invariant
            i <= tags.len(),
            tv == tag_views(tags@),
            tag_pos(tv, t@) == crate::text::shift(
                tag_pos(tv.subrange(i as int, tv.len() as int), t@),
                i as int,
            ),
        decreases tags.len() - i,
    {
        assert(tv[i as int].0 == tags@[i as int].0@);
        if tags[i].0 == *t {
            return Some(i);
        }
        assert(tv.subrange(i as int, tv.len() as int).drop_first() =~= tv.subrange(
            i + 1,
            tv.len() as int,
        ));
        i += 1;
    }
    None
}

/// Records that the note at `p` carries tag `t`.
fn push_tag(tags: &mut Vec<(String, Vec<String>)>, t: &String, p: &String)
    ensures
        tag_views(final(tags)@) == tag_push(tag_views(old(tags)@), t@, p@),
{
    match find_tag(tags, t) {
        Some(i) => {
            let mut paths = crate::frontmatter::copy_strings(&tags[i].1);
            let ghost before = strs(paths@);
            paths.push(p.clone());
            assert(strs(paths@) =~= before.push(p@));
            tags.set(i, (t.clone(), paths));
            assert(tag_views(tags@) =~= tag_push(tag_views(old(tags)@), t@, p@));
        },
        None => {
            let mut paths: Vec<String> = Vec::new();
            paths.push(p.clone());
            assert(strs(paths@) =~= seq![p@]);
            tags.push((t.clone(), paths));
            assert(tag_views(tags@) =~= tag_push(tag_views(old(tags)@), t@, p@));
        },
    }
}

/// Records that the note at `p` carries each tag of `ts`.
fn add_tags(tags: &mut Vec<(String, Vec<String>)>, p: &String, ts: &Vec<String>)
    ensures
        tag_views(final(tags)@) == tags_add(tag_views(old(tags)@), p@, strs(ts@)),
{
    let mut i: usize = 0;
    assert(strs(ts@).take(0) =~= Seq::<Seq<char>>::empty());
    while i < ts.len()
        invariant
            i <= ts.len(),
            tag_views(tags@) == tags_add(tag_views(old(tags)@), p@, strs(ts@).take(i as int)),
        decreases ts.len() - i,
    {
        assert(strs(ts@).take(i + 1).drop_last() =~= strs(ts@).take(i as int));
        assert(strs(ts@)[i as int] == ts@[i as int]@);
        push_tag(tags, &ts[i], p);
        i += 1;
    }
    assert(strs(ts@).take(ts.len() as int) =~= strs(ts@));
}

/// The strings of `v` other than `p`.
fn without_string(v: &Vec<String>, p: &String) -> (r: Vec<String>)
    ensures
        strs(r@) == strs(v@).filter(other_than(p@)),
{
    let mut r: Vec<String> = Vec::new();
    let mut i: usize = 0;
    assert(strs(v@).take(0) =~= Seq::<Seq<char>>::empty());
    proof {
        reveal(Seq::filter);
    }
    while i < v.len()
        invariant
            i <= v.len(),
            strs(r@) == strs(v@).take(i as int).filter(other_than(p@)),
        decreases v.len() - i,
    {
        proof {
            reveal(Seq::filter);
        }
        assert(strs(v@).take(i + 1).drop_last() =~= strs(v@).take(i as int));
        assert(strs(v@)[i as int] == v@[i as int]@);
        if v[i] != *p {
            let ghost before = strs(r@);
            r.push(v[i].clone());
            assert(strs(r@) =~= before.push(v@[i as int]@));
        }
        i += 1;
    }
    assert(strs(v@).take(v.len() as int) =~= strs(v@));
    r
}

/// Removes `p` from the paths of each tag of `ts`.
fn remove_tags(tags: &mut Vec<(String, Vec<String>)>, p: &String, ts: &Vec<String>)
    ensures
        tag_views(final(tags)@) == tags_remove(tag_views(old(tags)@), p@, strs(ts@)),
{
    let mut i: usize = 0;
    assert(strs(ts@).take(0) =~= Seq::<Seq<char>>::empty());
    while i < ts.len()
        invariant
            i <= ts.len(),
            tag_views(tags@) == tags_remove(tag_views(old(tags)@), p@, strs(ts@).take(i as int)),
        decreases ts.len() - i,
    {
        assert(strs(ts@).take(i + 1).drop_last() =~= strs(ts@).take(i as int));
        assert(strs(ts@)[i as int] == ts@[i as int]@);
        let t = &ts[i];
        match find_tag(tags, t) {
            Some(j) => {
                let kept = without_string(&tags[j].1, p);
                let ghost before = tag_views(tags@);
                tags.set(j, (t.clone(), kept));
                assert(tag_views(tags@) =~= tag_retain(before, t@, p@));
            },
            None => {},
        }
        i += 1;
    }
    assert(strs(ts@).take(ts.len() as int) =~= strs(ts@));
}

/// The tags under which a note is indexed.
fn note_all_tags(n: &NoteData) -> (r: Vec<String>)
    ensures
        strs(r@) == all_tags(n@),
{
    merge_tag_lists(&n.frontmatter.tags, &n.tags)
}

// ---------------------------------------------------------------------------
// Graph edges and backlinks
// ---------------------------------------------------------------------------

/// A resolved link: its graph edge and its backlink (with the target path).
pub type LinkRecord = (EdgeV, (Seq<char>, BacklinkV));

/// The record of link `l` of the note at `src` (title `title`, body
/// `body`), if its target resolves among `notes`.
pub open spec fn link_record(
    notes: Seq<NoteV>,
    src: Seq<char>,
    title: Seq<char>,
    body: Seq<char>,
    l: WikilinkV,
) -> Option<LinkRecord> {
    match resolve(l.target, notes) {
        Some(t) => Some(
            (
                EdgeV { source: src, target: t },
                (t, BacklinkV { source_path: src, source_title: title, context: context_of(body, l.raw) }),
            ),
        ),
        None => None,
    }
}

/// The records of the resolvable links of a note, in link order.
pub open spec fn link_pairs(
    notes: Seq<NoteV>,
    src: Seq<char>,
    title: Seq<char>,
    body: Seq<char>,
    links: Seq<WikilinkV>,
) -> Seq<LinkRecord> {
    links.filter_map(|l: WikilinkV| link_record(notes, src, title, body, l))
}

/// The edges of some records.
pub open spec fn record_edges(rs: Seq<LinkRecord>) -> Seq<EdgeV> {
    rs.map_values(|r: LinkRecord| r.0)
}

/// The backlinks of some records.
pub open spec fn record_backlinks(rs: Seq<LinkRecord>) -> Seq<(Seq<char>, BacklinkV)> {
    rs.map_values(|r: LinkRecord| r.1)
}

/// An edge other than `p -> t`.
pub open spec fn keeps_edge(p: Seq<char>, t: Seq<char>) -> spec_fn(EdgeV) -> bool {
    |e: EdgeV| !(e.source == p && e.target == t)
}

/// A backlink other than one to `t` from `p`.
pub open spec fn keeps_backlink(p: Seq<char>, t: Seq<char>) -> spec_fn((Seq<char>, BacklinkV)) -> bool {
    |b: (Seq<char>, BacklinkV)| !(b.0 == t && b.1.source_path == p)
}

/// A backlink pointing to `p`.
pub open spec fn points_to(p: Seq<char>) -> spec_fn((Seq<char>, BacklinkV)) -> bool {
    |b: (Seq<char>, BacklinkV)| b.0 == p
}

/// A backlink not pointing to `p`.
pub open spec fn points_elsewhere(p: Seq<char>) -> spec_fn((Seq<char>, BacklinkV)) -> bool {
    |b: (Seq<char>, BacklinkV)| b.0 != p
}

/// Edges other than `p -> t`.
pub open spec fn drop_edges(es: Seq<EdgeV>, p: Seq<char>, t: Seq<char>) -> Seq<EdgeV> {
    es.filter(keeps_edge(p, t))
}

/// Backlinks other than those to `t` from `p`.
pub open spec fn drop_backlinks(bs: Seq<(Seq<char>, BacklinkV)>, p: Seq<char>, t: Seq<char>) -> Seq<
    (Seq<char>, BacklinkV),
> {
    bs.filter(keeps_backlink(p, t))
}

/// For each link of `links` that resolves among `notes` to some `t`, drops
/// the edges `p -> t` and the backlinks to `t` from `p`.
pub open spec fn drop_links(
    es: Seq<EdgeV>,
    bs: Seq<(Seq<char>, BacklinkV)>,
    p: Seq<char>,
    notes: Seq<NoteV>,
    links: Seq<WikilinkV>,
) -> (Seq<EdgeV>, Seq<(Seq<char>, BacklinkV)>)
    decreases links.len(),
{
    if links.len() == 0 {
        (es, bs)
    } else {
        let (e2, b2) = drop_links(es, bs, p, notes, links.drop_last());
        match resolve(links.last().target, notes) {
            Some(t) => (drop_edges(e2, p, t), drop_backlinks(b2, p, t)),
            None => (e2, b2),
        }
    }
}

/// Appends the edges and backlinks of the resolvable links of a note.
fn push_links(
    notes: &Vec<NoteData>,
    edges: &mut Vec<GraphEdge>,
    backlinks: &mut Vec<(String, Backlink)>,
    src: &String,
    title: &String,
    body: &Vec<char>,
    links: &Vec<Wikilink>,
)
    ensures
        edge_views(final(edges)@) == edge_views(old(edges)@) + record_edges(
            link_pairs(note_views(notes@), src@, title@, body@, link_views(links@)),
        ),
        backlink_views(final(backlinks)@) == backlink_views(old(backlinks)@) + record_backlinks(
            link_pairs(note_views(notes@), src@, title@, body@, link_views(links@)),
        ),
{
    let ghost nv = note_views(notes@);
    let ghost lv = link_views(links@);
    let mut i: usize = 0;
    assert(lv.take(0) =~= Seq::<WikilinkV>::empty());
    assert(edge_views(edges@) =~= edge_views(old(edges)@) + record_edges(
        link_pairs(nv, src@, title@, body@, lv.take(0)),
    ));
    assert(backlink_views(backlinks@) =~= backlink_views(old(backlinks)@) + record_backlinks(
        link_pairs(nv, src@, title@, body@, lv.take(0)),
    ));
    while i < links.len()
        invariant
            i <= links.len(),
            nv == note_views(notes@),
            lv == link_views(links@),
            edge_views(edges@) == edge_views(old(edges)@) + record_edges(
                link_pairs(nv, src@, title@, body@, lv.take(i as int)),
            ),
            backlink_views(backlinks@) == backlink_views(old(backlinks)@) + record_backlinks(
                link_pairs(nv, src@, title@, body@, lv.take(i as int)),
            ),
        decreases links.len() - i,
    {
        let l = &links[i];
        assert(lv[i as int] == l@);
        assert(lv.take(i + 1).drop_last() =~= lv.take(i as int));
        let ghost prev = link_pairs(nv, src@, title@, body@, lv.take(i as int));
        let target = to_chars(l.target.as_str());
        match resolve_target(&target, notes) {
            Some(t) => {
                let raw = to_chars(l.raw.as_str());
                let context = from_chars(&link_context(body, &raw));
                let ghost rec = link_record(nv, src@, title@, body@, l@);
                let ghost e_before = edge_views(edges@);
                let ghost b_before = backlink_views(backlinks@);
                edges.push(GraphEdge { source: src.clone(), target: t.clone() });
                backlinks.push(
                    (
                        t,
                        Backlink {
                            source_path: src.clone(),
                            source_title: title.clone(),
                            context,
                        },
                    ),
                );
                assert(link_pairs(nv, src@, title@, body@, lv.take(i + 1)) == prev + seq![
                    rec.unwrap(),
                ]);
                assert(edge_views(edges@) =~= e_before.push(rec.unwrap().0));
                assert(backlink_views(backlinks@) =~= b_before.push(rec.unwrap().1));
                assert(record_edges(prev + seq![rec.unwrap()]) =~= record_edges(prev).push(
                    rec.unwrap().0,
                ));
                assert(record_backlinks(prev + seq![rec.unwrap()]) =~= record_backlinks(prev).push(
                    rec.unwrap().1,
                ));
            },
            None => {
                assert(link_pairs(nv, src@, title@, body@, lv.take(i + 1)) == prev);
            },
        }
        i += 1;
    }
    assert(lv.take(links.len() as int) =~= lv);
}

/// Removes the edges `p -> t`.
fn retain_edges(edges: &mut Vec<GraphEdge>, p: &String, t: &String)
    ensures
        edge_views(final(edges)@) == drop_edges(edge_views(old(edges)@), p@, t@),
{
    let ghost ev = edge_views(edges@);
    let mut r: Vec<GraphEdge> = Vec::new();
    let mut i: usize = 0;
    assert(ev.take(0) =~= Seq::<EdgeV>::empty());
    proof {
        reveal(Seq::filter);
    }
    while i < edges.len()
        invariant
            i <= edges.len(),
            ev == edge_views(edges@),
            ev == edge_views(old(edges)@),
            edge_views(r@) == drop_edges(ev.take(i as int), p@, t@),
        decreases edges.len() - i,
    {
        proof {
            reveal(Seq::filter);
        }
        assert(ev.take(i + 1).drop_last() =~= ev.take(i as int));
        assert(ev[i as int] == edges@[i as int]@);
        let e = &edges[i];
        if !(e.source == *p && e.target == *t) {
            let ghost before = edge_views(r@);
            r.push(copy_edge(e));
            assert(edge_views(r@) =~= before.push(e@));
        }
        i += 1;
    }
    assert(ev.take(edges.len() as int) =~= ev);
    *edges = r;
}

/// A copy of a backlink.
pub fn copy_backlink(b: &Backlink) -> (r: Backlink)
    ensures
        r@ == b@,
{
    Backlink {
        source_path: b.source_path.clone(),
        source_title: b.source_title.clone(),
        context: b.context.clone(),
    }
}

/// Removes the backlinks to `t` from `p`.
fn retain_backlinks(bls: &mut Vec<(String, Backlink)>, p: &String, t: &String)
    ensures
        backlink_views(final(bls)@) == drop_backlinks(backlink_views(old(bls)@), p@, t@),
{
    let ghost bv = backlink_views(bls@);
    let mut r: Vec<(String, Backlink)> = Vec::new();
    let mut i: usize = 0;
    assert(bv.take(0) =~= Seq::<(Seq<char>, BacklinkV)>::empty());
    proof {
        reveal(Seq::filter);
    }
    while i < bls.len()
        invariant
            i <= bls.len(),
            bv == backlink_views(bls@),
            bv == backlink_views(old(bls)@),
            backlink_views(r@) == drop_backlinks(bv.take(i as int), p@, t@),
        decreases bls.len() - i,
    {
        proof {
            reveal(Seq::filter);
        }
        assert(bv.take(i + 1).drop_last() =~= bv.take(i as int));
        assert(bv[i as int] == (bls@[i as int].0@, bls@[i as int].1@));
        let e = &bls[i];
        if !(e.0 == *t && e.1.source_path == *p) {
            let ghost before = backlink_views(r@);
            r.push((e.0.clone(), copy_backlink(&e.1)));
            assert(backlink_views(r@) =~= before.push((e.0@, e.1@)));
        }
        i += 1;
    }
    assert(bv.take(bls.len() as int) =~= bv);
    *bls = r;
}

/// Drops the edges and backlinks of the resolvable links of the note at `p`.
fn remove_links(
    notes: &Vec<NoteData>,
    edges: &mut Vec<GraphEdge>,
    backlinks: &mut Vec<(String, Backlink)>,
    p: &String,
    links: &Vec<Wikilink>,
)
    ensures
        (edge_views(final(edges)@), backlink_views(final(backlinks)@)) == drop_links(
            edge_views(old(edges)@),
            backlink_views(old(backlinks)@),
            p@,
            note_views(notes@),
            link_views(links@),
        ),
{
    let ghost lv = link_views(links@);
    let mut i: usize = 0;
    assert(lv.take(0) =~= Seq::<WikilinkV>::empty());
    while i < links.len()
        invariant
            i <= links.len(),
            lv == link_views(links@),
            (edge_views(edges@), backlink_views(backlinks@)) == drop_links(
                edge_views(old(edges)@),
                backlink_views(old(backlinks)@),
                p@,
                note_views(notes@),
                lv.take(i as int),
            ),
        decreases links.len() - i,
    {
        assert(lv[i as int] == links@[i as int]@);
        assert(lv.take(i + 1).drop_last() =~= lv.take(i as int));
        let target = to_chars(links[i].target.as_str());
        match resolve_target(&target, notes) {
            Some(t) => {
                retain_backlinks(backlinks, p, &t);
                retain_edges(edges, p, &t);
            },
            None => {},
        }
        i += 1;
    }
    assert(lv.take(links.len() as int) =~= lv);
}

// ---------------------------------------------------------------------------
// Whole-index operations
// ---------------------------------------------------------------------------

/// Each file `(path, content)` parsed into its note and body.
pub open spec fn parse_files(files: Seq<(Seq<char>, Seq<char>)>) -> Seq<(NoteV, Seq<char>)> {
    files.map_values(|f: (Seq<char>, Seq<char>)| note_of(f.0, f.1))
}

/// The notes of parsed files, a later file replacing an earlier one with
/// the same path.
pub open spec fn notes_from(parsed: Seq<(NoteV, Seq<char>)>) -> Seq<NoteV>
    decreases parsed.len(),
{
    if parsed.len() == 0 {
        seq![]
    } else {
        notes_insert(notes_from(parsed.drop_last()), parsed.last().0)
    }
}

/// The tag index of parsed files.
pub open spec fn tags_from_parsed(parsed: Seq<(NoteV, Seq<char>)>) -> Seq<(Seq<char>, Seq<Seq<char>>)>
    decreases parsed.len(),
{
    if parsed.len() == 0 {
        seq![]
    } else {
        let n = parsed.last().0;
        tags_add(tags_from_parsed(parsed.drop_last()), n.path, all_tags(n))
    }
}

/// The link records of parsed files, links resolved among `notes`.
pub open spec fn pairs_from(notes: Seq<NoteV>, parsed: Seq<(NoteV, Seq<char>)>) -> Seq<LinkRecord>
    decreases parsed.len(),
{
    if parsed.len() == 0 {
        seq![]
    } else {
        let (n, body) = parsed.last();
        pairs_from(notes, parsed.drop_last()) + link_pairs(
            notes,
            n.path,
            n.title,
            body,
            n.outgoing_links,
        )
    }
}

/// The index built from scratch out of the files `(path, content)`.
pub open spec fn rebuilt(files: Seq<(Seq<char>, Seq<char>)>) -> IndexV {
    let parsed = parse_files(files);
    let notes = notes_from(parsed);
    let pairs = pairs_from(notes, parsed);
    IndexV {
        notes,
        backlinks: record_backlinks(pairs),
        edges: record_edges(pairs),
        tags: tags_from_parsed(parsed),
    }
}

/// The index after (re-)indexing the file at `p` holding `content`: the
/// old note's edges, backlinks and tag paths are dropped, the new ones
/// added (links resolved among the notes as they were), and the note stored.
pub open spec fn indexed(idx: IndexV, p: Seq<char>, content: Seq<char>) -> IndexV {
    let (n, body) = note_of(p, content);
    let (e1, b1, t1) = match note_get(idx.notes, p) {
        Some(old) => {
            let (e, b) = drop_links(idx.edges, idx.backlinks, p, idx.notes, old.outgoing_links);
            (e, b, tags_remove(idx.tags, p, all_tags(old)))
        },
        None => (idx.edges, idx.backlinks, idx.tags),
    };
    let pairs = link_pairs(idx.notes, p, n.title, body, n.outgoing_links);
    IndexV {
        notes: notes_insert(idx.notes, n),
        backlinks: b1 + record_backlinks(pairs),
        edges: e1 + record_edges(pairs),
        tags: tags_add(t1, p, all_tags(n)),
    }
}

/// An edge that neither starts nor ends at `p`.
pub open spec fn edge_clear_of(p: Seq<char>) -> spec_fn(EdgeV) -> bool {
    |e: EdgeV| e.source != p && e.target != p
}

/// A backlink that is neither listed under `p` nor comes from `p`.
pub open spec fn backlink_clear_of(p: Seq<char>) -> spec_fn((Seq<char>, BacklinkV)) -> bool {
    |b: (Seq<char>, BacklinkV)| b.0 != p && b.1.source_path != p
}

/// The index without the file at `p`, which leaves the index entirely: its
/// note goes, every edge from or to it goes, every backlink listed under it
/// or coming from it goes, and `p` leaves the path lists of its tags.
pub open spec fn removed(idx: IndexV, p: Seq<char>) -> IndexV {
    match note_get(idx.notes, p) {
        None => idx,
        Some(old) => IndexV {
            notes: notes_remove(idx.notes, p),
            backlinks: idx.backlinks.filter(backlink_clear_of(p)),
            edges: idx.edges.filter(edge_clear_of(p)),
            tags: tags_remove(idx.tags, p, all_tags(old)),
        },
    }
}

/// No two notes share a path.
pub open spec fn notes_unique(notes: Seq<NoteV>) -> bool {
    forall|a: int, b: int|
        0 <= a < b < notes.len() ==> #[trigger] notes[a].path != #[trigger] notes[b].path
}

/// Inserting keeps paths unique.
pub proof fn lemma_notes_insert_unique(notes: Seq<NoteV>, n: NoteV)
    requires
        notes_unique(notes),
    ensures
        notes_unique(notes_insert(notes, n)),
{
    lemma_note_pos(notes, n.path);
    let next = notes_insert(notes, n);
    assert forall|a: int, b: int| 0 <= a < b < next.len() implies #[trigger] next[a].path
        != #[trigger] next[b].path by {
        if b == notes.len() {
            assert(next[a] == notes[a]);
        }
    }
}

/// Removing keeps paths unique.
pub proof fn lemma_notes_remove_unique(notes: Seq<NoteV>, p: Seq<char>)
    requires
        notes_unique(notes),
    ensures
        notes_unique(notes_remove(notes, p)),
{
    lemma_note_pos(notes, p);
    let next = notes_remove(notes, p);
    if let Some(i) = note_pos(notes, p) {
        assert forall|a: int, b: int| 0 <= a < b < next.len() implies #[trigger] next[a].path
            != #[trigger] next[b].path by {
            let a2 = if a < i { a } else { a + 1 };
            let b2 = if b < i { b } else { b + 1 };
            assert(next[a] == notes[a2]);
            assert(next[b] == notes[b2]);
        }
    }
}

/// The notes of parsed files have unique paths.
pub proof fn lemma_notes_from_unique(parsed: Seq<(NoteV, Seq<char>)>)
    ensures
        notes_unique(notes_from(parsed)),
    decreases parsed.len(),
{
    if parsed.len() > 0 {
        lemma_notes_from_unique(parsed.drop_last());
        lemma_notes_insert_unique(notes_from(parsed.drop_last()), parsed.last().0);
    }
}

/// The tag index of parsed files has unique tags.
pub proof fn lemma_tags_from_parsed_unique(parsed: Seq<(NoteV, Seq<char>)>)
    ensures
        tags_unique(tags_from_parsed(parsed)),
    decreases parsed.len(),
{
    if parsed.len() > 0 {
        lemma_tags_from_parsed_unique(parsed.drop_last());
        let n = parsed.last().0;
        lemma_tags_add_unique(tags_from_parsed(parsed.drop_last()), n.path, all_tags(n));
    }
}

/// Stores a note under its path.
fn insert_note(notes: &mut Vec<NoteData>, n: NoteData)
    ensures
        note_views(final(notes)@) == notes_insert(note_views(old(notes)@), n@),
{
    let p = to_chars(n.path.as_str());
    let ghost nv = n@;
    match find_note(notes, &p) {
        Some(i) => {
            notes.set(i, n);
            assert(note_views(notes@) =~= notes_insert(note_views(old(notes)@), nv));
        },
        None => {
            notes.push(n);
            assert(note_views(notes@) =~= notes_insert(note_views(old(notes)@), nv));
        },
    }
}

/// Values of files.
pub open spec fn file_views(files: Seq<(String, String)>) -> Seq<(Seq<char>, Seq<char>)> {
    files.map_values(|f: (String, String)| (f.0@, f.1@))
}

/// Parses every file, keeping its body.
fn parse_all(files: &Vec<(String, String)>) -> (parsed: Vec<(NoteData, Vec<char>)>)
    ensures
        parsed@.len() == files@.len(),
        forall|j: int|
            0 <= j < parsed@.len() ==> (#[trigger] parsed@[j].0@, parsed@[j].1@) == parse_files(
                file_views(files@),
            )[j],
{
    let ghost parsed_all = parse_files(file_views(files@));
    let mut parsed: Vec<(NoteData, Vec<char>)> = Vec::new();
    let mut i: usize = 0;
    while i < files.len()
        invariant
            i <= files.len(),
            parsed_all == parse_files(file_views(files@)),
            parsed@.len() == i,
            forall|j: int|
                0 <= j < i ==> (#[trigger] parsed@[j].0@, parsed@[j].1@) == parsed_all[j],
        decreases files.len() - i,
    {
        let p = to_chars(files[i].0.as_str());
        let c = to_chars(files[i].1.as_str());
        let item = parse_note_chars(&p, &c);
        assert(file_views(files@)[i as int] == (p@, c@));
        assert(parsed_all[i as int] == note_of(p@, c@));
        let ghost before = parsed@;
        parsed.push(item);
        assert(parsed@ == before.push(item));
        assert forall|j: int| 0 <= j < i + 1 implies (#[trigger] parsed@[j].0@, parsed@[j].1@)
            == parsed_all[j] by {
            if j < i {
                assert(parsed@[j] == before[j]);
                assert((before[j].0@, before[j].1@) == parsed_all[j]);
            } else {
                assert(parsed@[j] == item);
                assert((item.0@, item.1@) == parsed_all[j]);
            }
        }
        i += 1;
    }
    parsed
}

/// Builds the index of the files `(relative path, content)`.
#[verifier::rlimit(40)]
pub fn build_index(files: &Vec<(String, String)>) -> (r: VaultIndex)
    ensures
        r@ == rebuilt(file_views(files@)),
        index_wf(r@),
{
    let ghost parsed_all = parse_files(file_views(files@));
    // Parse every file, keeping its body.
    let parsed = parse_all(files);
    // Notes.
    let mut notes: Vec<NoteData> = Vec::new();
    let mut k: usize = 0;
    assert(parsed_all.take(0) =~= Seq::<(NoteV, Seq<char>)>::empty());
    while k < parsed.len()
        invariant
            k <= parsed.len() == parsed_all.len(),
            forall|j: int|
                0 <= j < parsed.len() ==> (#[trigger] parsed@[j].0@, parsed@[j].1@) == parsed_all[j],
            note_views(notes@) == notes_from(parsed_all.take(k as int)),
        decreases parsed.len() - k,
    {
        assert(parsed_all.take(k + 1).drop_last() =~= parsed_all.take(k as int));
        assert(parsed_all.take(k + 1).last() == parsed_all[k as int]);
        insert_note(&mut notes, crate::note::copy_note(&parsed[k].0));
        k += 1;
    }
    assert(parsed_all.take(parsed.len() as int) =~= parsed_all);
    // Tags.
    let mut tag_index: Vec<(String, Vec<String>)> = Vec::new();
    let mut k: usize = 0;
    assert(tag_views(tag_index@) =~= tags_from_parsed(parsed_all.take(0)));
    while k < parsed.len()
        invariant
            k <= parsed.len() == parsed_all.len(),
            forall|j: int|
                0 <= j < parsed.len() ==> (#[trigger] parsed@[j].0@, parsed@[j].1@) == parsed_all[j],
            tag_views(tag_index@) == tags_from_parsed(parsed_all.take(k as int)),
        decreases parsed.len() - k,
    {
        assert(parsed_all.take(k + 1).drop_last() =~= parsed_all.take(k as int));
        assert(parsed_all.take(k + 1).last() == parsed_all[k as int]);
        let n = &parsed[k].0;
        let ts = note_all_tags(n);
        add_tags(&mut tag_index, &n.path, &ts);
        k += 1;
    }
    // Graph edges and backlinks, resolved among all notes.
    let mut edges: Vec<GraphEdge> = Vec::new();
    let mut backlinks: Vec<(String, Backlink)> = Vec::new();
    let ghost all_notes = note_views(notes@);
    let mut k: usize = 0;
    assert(edge_views(edges@) =~= record_edges(pairs_from(all_notes, parsed_all.take(0))));
    assert(backlink_views(backlinks@) =~= record_backlinks(pairs_from(all_notes, parsed_all.take(0))));
    while k < parsed.len()
        invariant
            k <= parsed.len() == parsed_all.len(),
            forall|j: int|
                0 <= j < parsed.len() ==> (#[trigger] parsed@[j].0@, parsed@[j].1@) == parsed_all[j],
            all_notes == note_views(notes@),
            edge_views(edges@) == record_edges(pairs_from(all_notes, parsed_all.take(k as int))),
            backlink_views(backlinks@) == record_backlinks(
                pairs_from(all_notes, parsed_all.take(k as int)),
            ),
        decreases parsed.len() - k,
    {
        assert(parsed_all.take(k + 1).drop_last() =~= parsed_all.take(k as int));
        assert(parsed_all.take(k + 1).last() == parsed_all[k as int]);
        let ghost prev = pairs_from(all_notes, parsed_all.take(k as int));
        let n = &parsed[k].0;
        let body = &parsed[k].1;
        let ghost added = link_pairs(all_notes, n@.path, n@.title, body@, n@.outgoing_links);
        push_links(&notes, &mut edges, &mut backlinks, &n.path, &n.title, body, &n.outgoing_links);
        assert(record_edges(prev + added) =~= record_edges(prev) + record_edges(added));
        assert(record_backlinks(prev + added) =~= record_backlinks(prev) + record_backlinks(added));
        k += 1;
    }
    proof {
        lemma_notes_from_unique(parsed_all);
        lemma_tags_from_parsed_unique(parsed_all);
    }
    VaultIndex { notes, backlinks, graph_edges: edges, tag_index }
}

// ---------------------------------------------------------------------------
// Queries
// ---------------------------------------------------------------------------

/// The backlinks pointing to `p`, in the order they were found.
pub open spec fn backlinks_to(idx: IndexV, p: Seq<char>) -> Seq<BacklinkV> {
    idx.backlinks.filter(points_to(p)).map_values(
        |b: (Seq<char>, BacklinkV)| b.1,
    )
}

/// Each tag with its number of note paths.
pub open spec fn tag_counts(tags: Seq<(Seq<char>, Seq<Seq<char>>)>) -> Seq<(Seq<char>, nat)> {
    tags.map_values(|e: (Seq<char>, Seq<Seq<char>>)| (e.0, e.1.len()))
}

/// The number of leading entries of `s` whose count is at least `c`.
pub open spec fn count_prefix(s: Seq<(Seq<char>, nat)>, c: nat) -> int
    decreases s.len(),
{
    if s.len() > 0 && s[0].1 >= c {
        1 + count_prefix(s.drop_first(), c)
    } else {
        0
    }
}

/// Places `x` after the entries with a count at least its own.
pub open spec fn insert_by_count(s: Seq<(Seq<char>, nat)>, x: (Seq<char>, nat)) -> Seq<
    (Seq<char>, nat),
> {
    s.insert(count_prefix(s, x.1), x)
}

/// The entries ordered by count, largest first; entries with equal counts
/// keep their order (insertion sort).
pub open spec fn sort_by_count(s: Seq<(Seq<char>, nat)>) -> Seq<(Seq<char>, nat)>
    decreases s.len(),
{
    if s.len() == 0 {
        seq![]
    } else {
        insert_by_count(sort_by_count(s.drop_last()), s.last())
    }
}

/// Looks a path up among `notes`.
pub open spec fn lookup_in(notes: Seq<NoteV>) -> spec_fn(Seq<char>) -> Option<NoteV> {
    |p: Seq<char>| note_get(notes, p)
}

/// The notes listed under tag `t` (paths without a note are skipped).
pub open spec fn notes_tagged(idx: IndexV, t: Seq<char>) -> Seq<NoteV> {
    match tag_pos(idx.tags, t) {
        Some(i) => idx.tags[i].1.filter_map(lookup_in(idx.notes)),
        None => seq![],
    }
}

/// `count_prefix` is bounded by the length.
pub proof fn lemma_count_prefix_bound(s: Seq<(Seq<char>, nat)>, c: nat)
    ensures
        0 <= count_prefix(s, c) <= s.len(),
    decreases s.len(),
{
    if s.len() > 0 && s[0].1 >= c {
        lemma_count_prefix_bound(s.drop_first(), c);
    }
}

/// `count_prefix` is the first position whose count is below `c`.
pub proof fn lemma_count_prefix_at(s: Seq<(Seq<char>, nat)>, c: nat, k: int)
    requires
        0 <= k <= s.len(),
        forall|j: int| 0 <= j < k ==> s[j].1 >= c,
        k == s.len() || s[k].1 < c,
    ensures
        count_prefix(s, c) == k,
    decreases s.len(),
{
    if k > 0 {
        lemma_count_prefix_at(s.drop_first(), c, k - 1);
    }
}

/// A mutable vault index with the path of its vault.
pub struct Indexer {
    vault_path: String,
    index: VaultIndex,
}

impl View for Indexer {
    type V = IndexV;

    closed spec fn view(&self) -> IndexV {
        self.index@
    }
}

impl Indexer {
    /// The index is well formed: paths and tags are unique, the tag index
    /// lists exactly the notes carrying each tag, edges and backlinks
    /// correspond one to one, and every edge and backlink points at a note.
    pub open spec fn wf(&self) -> bool {
        &&& index_wf(self@)
        &&& tags_consistent(self@)
        &&& corresponds(self@.edges, self@.backlinks)
        &&& edges_resolved(self@)
        &&& backlinks_resolved(self@)
    }

    /// The vault path given at creation.
    pub closed spec fn vault(&self) -> Seq<char> {
        self.vault_path@
    }

    /// An empty index for the vault at `vault_path`.
    pub fn new(vault_path: String) -> (r: Indexer)
        ensures
            r@ == empty_index(),
            r.wf(),
            r.vault() == vault_path@,
    {
        let r = Indexer {
            vault_path,
            index: VaultIndex {
                notes: Vec::new(),
                backlinks: Vec::new(),
                graph_edges: Vec::new(),
                tag_index: Vec::new(),
            },
        };
        assert(r@.notes =~= empty_index().notes);
        assert(r@.backlinks =~= empty_index().backlinks);
        assert(r@.edges =~= empty_index().edges);
        assert forall|t: Seq<char>, q: Seq<char>|
            #![trigger crate::index_laws::tag_lists(r@.tags, t, q)]
            #![trigger crate::index_laws::carries(r@.notes, q, t)]
            crate::index_laws::tag_lists(r@.tags, t, q) <==> crate::index_laws::carries(r@.notes, q, t) by {
            assert(note_get(r@.notes, q) is None);
        }
        assert(r@.tags =~= empty_index().tags);
        r
    }

    /// Full index rebuild out of the vault's Markdown files, each given as
    /// `(path relative to the vault root, content)`, one per path as a
    /// directory holds them: parses every file, then builds graph edges and
    /// backlinks in a single pass.
    pub fn rebuild(&mut self, files: &Vec<(String, String)>)
        requires
            forall|a: int, b: int|
                0 <= a < b < files@.len() ==> (#[trigger] files@[a]).0@ != (#[trigger] files@[b]).0@,
        ensures
            final(self)@ == rebuilt(file_views(files@)),
            final(self).wf(),
            final(self).vault() == old(self).vault(),
    {
        self.index = build_index(files);
        proof {
            let fv = file_views(files@);
            assert forall|a: int, b: int| 0 <= a < b < fv.len() implies #[trigger] fv[a].0 != #[trigger] fv[b].0 by {
                assert(fv[a].0 == files@[a].0@ && fv[b].0 == files@[b].0@);
            }
            law_rebuild_links(fv);
            law_rebuild_tags(fv);
        }
    }

    /// Indexes or re-indexes the file at the relative `path`, whose content
    /// is `content`.
    pub fn index_file_at(&mut self, path: &str, content: &str)
        requires
            old(self).wf(),
        ensures
            final(self)@ == indexed(old(self)@, path@, content@),
            final(self).wf(),
            final(self).vault() == old(self).vault(),
    {
        let p = to_chars(path);
        let c = to_chars(content);
        let (note, body) = parse_note_chars(&p, &c);
        let pstr = String::from_str(path);
        let ghost idx0 = self.index@;
        proof {
            lemma_note_pos(idx0.notes, p@);
            assert(tags_unique(idx0.tags));
        }
        match find_note(&self.index.notes, &p) {
            Some(i) => {
                assert(self.index@.notes[i as int] == self.index.notes@[i as int]@);
                remove_links(
                    &self.index.notes,
                    &mut self.index.graph_edges,
                    &mut self.index.backlinks,
                    &pstr,
                    &self.index.notes[i].outgoing_links,
                );
                let old_tags = note_all_tags(&self.index.notes[i]);
                remove_tags(&mut self.index.tag_index, &pstr, &old_tags);
                proof {
                    lemma_tags_remove_unique(idx0.tags, p@, strs(old_tags@));
                }
            },
            None => {
                assert(tag_views(self.index.tag_index@) == idx0.tags);
            },
        }
        assert(tags_unique(tag_views(self.index.tag_index@)));
        let new_tags = note_all_tags(&note);
        proof {
            lemma_tags_add_unique(tag_views(self.index.tag_index@), p@, strs(new_tags@));
        }
        add_tags(&mut self.index.tag_index, &pstr, &new_tags);
        push_links(
            &self.index.notes,
            &mut self.index.graph_edges,
            &mut self.index.backlinks,
            &pstr,
            &note.title,
            &body,
            &note.outgoing_links,
        );
        proof {
            lemma_notes_insert_unique(idx0.notes, note@);
        }
        insert_note(&mut self.index.notes, note);
        proof {
            lemma_indexed_wf(idx0, p@, c@);
            law_index_file_links(idx0, p@, c@);
            law_index_file_tags(idx0, p@, c@);
        }
    }

    /// Removes the file at `path` from the index entirely.
    pub fn remove_file(&mut self, path: &str)
        requires
            old(self).wf(),
        ensures
            final(self)@ == removed(old(self)@, path@),
            final(self).wf(),
            final(self).vault() == old(self).vault(),
    {
        let p = to_chars(path);
        let pstr = String::from_str(path);
        let ghost idx0 = self.index@;
        proof {
            lemma_note_pos(idx0.notes, p@);
        }
        match find_note(&self.index.notes, &p) {
            None => {},
            Some(i) => {
                let old = self.index.notes.remove(i);
                assert(note_views(self.index.notes@) =~= notes_remove(idx0.notes, p@));
                proof {
                    lemma_notes_remove_unique(idx0.notes, p@);
                }
                retain_backlinks_clear_of(&mut self.index.backlinks, &pstr);
                retain_edges_clear_of(&mut self.index.graph_edges, &pstr);
                let old_tags = note_all_tags(&old);
                remove_tags(&mut self.index.tag_index, &pstr, &old_tags);
                proof {
                    lemma_tags_remove_unique(idx0.tags, p@, strs(old_tags@));
                }
            },
        }
        proof {
            law_remove_file_links(idx0, p@);
            law_remove_file_tags(idx0, p@);
        }
    }

    /// Resolves a wikilink to a note path in the index.
    pub fn resolve_link(&self, link: &Wikilink) -> (r: Option<String>)
        ensures
            crate::markdown::opt_view(r) == resolve(link.target@, self@.notes),
    {
        let t = to_chars(link.target.as_str());
        resolve_target(&t, &self.index.notes)
    }

    /// All backlinks for a note by relative path.
    pub fn get_backlinks(&self, path: &str) -> (r: Vec<&Backlink>)
        ensures
            r@.map_values(|b: &Backlink| b@) == backlinks_to(self@, path@),
    {
        let ghost bv = self.index@.backlinks;
        let ghost pred = points_to(path@);
        let pstr = String::from_str(path);
        let mut r: Vec<&Backlink> = Vec::new();
        let mut i: usize = 0;
        assert(bv.take(0) =~= Seq::<(Seq<char>, BacklinkV)>::empty());
        proof {
            reveal(Seq::filter);
        }
        while i < self.index.backlinks.len()
            invariant
                i <= self.index.backlinks.len(),
                bv == self.index@.backlinks,
                pstr@ == path@,
                pred == points_to(path@),
                r@.map_values(|b: &Backlink| b@) == bv.take(i as int).filter(pred).map_values(
                    |b: (Seq<char>, BacklinkV)| b.1,
                ),
            decreases self.index.backlinks.len() - i,
        {
            proof {
                reveal(Seq::filter);
            }
            assert(bv.take(i + 1).drop_last() =~= bv.take(i as int));
            let e = &self.index.backlinks[i];
            assert(bv[i as int] == (e.0@, e.1@));
            if e.0 == pstr {
                let ghost before = r@.map_values(|b: &Backlink| b@);
                r.push(&e.1);
                assert(r@.map_values(|b: &Backlink| b@) =~= before.push(e.1@));
                assert(bv.take(i + 1).filter(pred) == bv.take(i as int).filter(pred).push(bv[i as int]));
                assert(bv.take(i + 1).filter(pred).map_values(|b: (Seq<char>, BacklinkV)| b.1) =~= bv.take(
                    i as int,
                ).filter(pred).map_values(|b: (Seq<char>, BacklinkV)| b.1).push(e.1@));
            }
            i += 1;
        }
        assert(bv.take(self.index.backlinks.len() as int) =~= bv);
        r
    }

    /// Graph data: every note path (node ids) and every edge.
    pub fn get_graph_data(&self) -> (r: (Vec<String>, Vec<GraphEdge>))
        ensures
            strs(r.0@) == self@.notes.map_values(|n: NoteV| n.path),
            edge_views(r.1@) == self@.edges,
    {
        let mut nodes: Vec<String> = Vec::new();
        let mut i: usize = 0;
        while i < self.index.notes.len()
            invariant
                i <= self.index.notes.len(),
                nodes@.len() == i,
                strs(nodes@) == self@.notes.map_values(|n: NoteV| n.path).take(i as int),
            decreases self.index.notes.len() - i,
        {
            assert(self@.notes[i as int] == self.index.notes@[i as int]@);
            nodes.push(self.index.notes[i].path.clone());
            assert(strs(nodes@) =~= self@.notes.map_values(|n: NoteV| n.path).take(i + 1));
            i += 1;
        }
        assert(self@.notes.map_values(|n: NoteV| n.path).take(i as int) =~= self@.notes.map_values(
            |n: NoteV| n.path,
        ));
        let mut edges: Vec<GraphEdge> = Vec::new();
        let mut i: usize = 0;
        while i < self.index.graph_edges.len()
            invariant
                i <= self.index.graph_edges.len(),
                edges@.len() == i,
                edge_views(edges@) == self@.edges.take(i as int),
            decreases self.index.graph_edges.len() - i,
        {
            edges.push(copy_edge(&self.index.graph_edges[i]));
            assert(edge_views(edges@) =~= self@.edges.take(i + 1));
            i += 1;
        }
        assert(self@.edges.take(i as int) =~= self@.edges);
        (nodes, edges)
    }

    /// All tags with their note counts, sorted by count descending.
    pub fn get_tags(&self) -> (r: Vec<(String, usize)>)
        ensures
            r@.map_values(|e: (String, usize)| (e.0@, e.1 as nat)) == sort_by_count(
                tag_counts(self@.tags),
            ),
    {
        let ghost counts = tag_counts(self@.tags);
        let mut r: Vec<(String, usize)> = Vec::new();
        let mut i: usize = 0;
        assert(counts.take(0) =~= Seq::<(Seq<char>, nat)>::empty());
        while i < self.index.tag_index.len()
            invariant
                i <= self.index.tag_index.len(),
                counts == tag_counts(self@.tags),
                r@.map_values(|e: (String, usize)| (e.0@, e.1 as nat)) == sort_by_count(
                    counts.take(i as int),
                ),
            decreases self.index.tag_index.len() - i,
        {
            let ghost rv = r@.map_values(|e: (String, usize)| (e.0@, e.1 as nat));
            assert(counts.take(i + 1).drop_last() =~= counts.take(i as int));
            let entry = &self.index.tag_index[i];
            let c = entry.1.len();
            assert(counts[i as int] == (entry.0@, c as nat));
            let mut k: usize = 0;
            while k < r.len() && r[k].1 >= c
                invariant
                    k <= r.len(),
                    rv == r@.map_values(|e: (String, usize)| (e.0@, e.1 as nat)),
                    forall|j: int| 0 <= j < k ==> rv[j].1 >= c,
                decreases r.len() - k,
            {
                assert(rv[k as int].1 == r@[k as int].1);
                k += 1;
            }
            proof {
                if k < r.len() {
                    assert(rv[k as int].1 == r@[k as int].1);
                }
                lemma_count_prefix_at(rv, c as nat, k as int);
            }
            r.insert(k, (entry.0.clone(), c));
            assert(r@.map_values(|e: (String, usize)| (e.0@, e.1 as nat)) =~= rv.insert(
                k as int,
                (entry.0@, c as nat),
            ));
            i += 1;
        }
        assert(counts.take(i as int) =~= counts);
        r
    }

    /// All notes tagged with `tag`.
    pub fn get_notes_by_tag(&self, tag: &str) -> (r: Vec<&NoteData>)
        ensures
            r@.map_values(|n: &NoteData| n@) == notes_tagged(self@, tag@),
    {
        let t = String::from_str(tag);
        let mut r: Vec<&NoteData> = Vec::new();
        match find_tag(&self.index.tag_index, &t) {
            None => {
                assert(r@.map_values(|n: &NoteData| n@) =~= notes_tagged(self@, tag@));
                r
            },
            Some(ti) => {
                let paths = &self.index.tag_index[ti].1;
                let ghost pv = strs(paths@);
                assert(pv == self@.tags[ti as int].1);
                let mut i: usize = 0;
                assert(pv.take(0) =~= Seq::<Seq<char>>::empty());
                while i < paths.len()
                    invariant
                        i <= paths.len(),
                        pv == strs(paths@),
                        r@.map_values(|n: &NoteData| n@) == pv.take(i as int).filter_map(
                            lookup_in(self@.notes),
                        ),
                    decreases paths.len() - i,
                {
                    assert(pv.take(i + 1).drop_last() =~= pv.take(i as int));
                    assert(pv[i as int] == paths@[i as int]@);
                    let pc = to_chars(paths[i].as_str());
                    proof {
                        lemma_note_pos(self@.notes, pc@);
                    }
                    let ghost before = r@.map_values(|n: &NoteData| n@);
                    match find_note(&self.index.notes, &pc) {
                        Some(j) => {
                            assert(self@.notes[j as int] == self.index.notes@[j as int]@);
                            r.push(&self.index.notes[j]);
                            assert(r@.map_values(|n: &NoteData| n@) =~= before + seq![
                                self.index.notes@[j as int]@,
                            ]);
                        },
                        None => {},
                    }
                    i += 1;
                }
                assert(pv.take(paths.len() as int) =~= pv);
                r
            },
        }
    }

    /// Read-only access to the vault index.
    pub fn index(&self) -> (r: &VaultIndex)
        ensures
            r@ == self@,
    {
        &self.index
    }
}

/// Keeps the backlinks neither listed under `p` nor coming from `p`.
fn retain_backlinks_clear_of(bls: &mut Vec<(String, Backlink)>, p: &String)
    ensures
        backlink_views(final(bls)@) == backlink_views(old(bls)@).filter(backlink_clear_of(p@)),
{
    let ghost bv = backlink_views(bls@);
    let mut r: Vec<(String, Backlink)> = Vec::new();
    let mut i: usize = 0;
    assert(bv.take(0) =~= Seq::<(Seq<char>, BacklinkV)>::empty());
    proof {
        reveal(Seq::filter);
    }
    while i < bls.len()
        invariant
            i <= bls.len(),
            bv == backlink_views(bls@),
            bv == backlink_views(old(bls)@),
            backlink_views(r@) == bv.take(i as int).filter(backlink_clear_of(p@)),
        decreases bls.len() - i,
    {
        proof {
            reveal(Seq::filter);
        }
        assert(bv.take(i + 1).drop_last() =~= bv.take(i as int));
        assert(bv[i as int] == (bls@[i as int].0@, bls@[i as int].1@));
        let e = &bls[i];
        if e.0 != *p && e.1.source_path != *p {
            let ghost before = backlink_views(r@);
            r.push((e.0.clone(), copy_backlink(&e.1)));
            assert(backlink_views(r@) =~= before.push((e.0@, e.1@)));
        }
        i += 1;
    }
    assert(bv.take(bls.len() as int) =~= bv);
    *bls = r;
}

/// Keeps the edges that neither start nor end at `p`.
fn retain_edges_clear_of(edges: &mut Vec<GraphEdge>, p: &String)
    ensures
        edge_views(final(edges)@) == edge_views(old(edges)@).filter(edge_clear_of(p@)),
{
    let ghost ev = edge_views(edges@);
    let mut r: Vec<GraphEdge> = Vec::new();
    let mut i: usize = 0;
    assert(ev.take(0) =~= Seq::<EdgeV>::empty());
    proof {
        reveal(Seq::filter);
    }
    while i < edges.len()
        invariant
            i <= edges.len(),
            ev == edge_views(edges@),
            ev == edge_views(old(edges)@),
            edge_views(r@) == ev.take(i as int).filter(edge_clear_of(p@)),
        decreases edges.len() - i,
    {
        proof {
            reveal(Seq::filter);
        }
        assert(ev.take(i + 1).drop_last() =~= ev.take(i as int));
        assert(ev[i as int] == edges@[i as int]@);
        let e = &edges[i];
        if e.source != *p && e.target != *p {
            let ghost before = edge_views(r@);
            r.push(copy_edge(e));
            assert(edge_views(r@) =~= before.push(e@));
        }
        i += 1;
    }
    assert(ev.take(edges.len() as int) =~= ev);
    *edges = r;
}

impl VaultIndex {
    /// The note stored under `path`.
    pub fn get_note(&self, path: &str) -> (r: Option<&NoteData>)
        ensures
            match r {
                Some(n) => note_get(self@.notes, path@) == Some(n@),
                None => note_get(self@.notes, path@) is None,
            },
    {
        let p = to_chars(path);
        match find_note(&self.notes, &p) {
            Some(i) => {
                assert(self@.notes[i as int] == self.notes@[i as int]@);
                Some(&self.notes[i])
            },
            None => None,
        }
    }
}

} // verus!
