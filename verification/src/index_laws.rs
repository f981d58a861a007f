//! Properties of the vault index that span its operations.
use vstd::prelude::*;

use crate::index::{
    backlinks_to, backlink_clear_of, edge_clear_of, drop_backlinks, drop_edges, drop_links, index_wf, indexed,
    lemma_note_pos, lemma_notes_insert_unique, lemma_notes_remove_unique, note_get, note_pos,
    notes_insert, notes_unique, removed, resolve, BacklinkV, EdgeV, IndexV, keeps_backlink,
    keeps_edge, points_to, has_path, link_pairs, link_record, pairs_from, parse_files,
    rebuilt, record_backlinks, record_edges, notes_from, notes_remove, lemma_resolve_in_index,
    LinkRecord, count_prefix, insert_by_count, sort_by_count, lemma_count_prefix_bound,
    all_tags, lemma_tag_pos, lemma_tags_add_unique, lemma_tags_remove_unique,
    lemma_tags_from_parsed_unique, lemma_notes_from_unique, other_than, tag_pos, tag_push,
    tag_retain, tags_add, tags_from_parsed, tags_remove, tags_unique, lookup_in, notes_tagged,
};
use crate::markdown::WikilinkV;
use crate::note::{note_of, NoteV};

verus! {

// ---------------------------------------------------------------------------
// Notes by path
// ---------------------------------------------------------------------------

/// The first note with path `p` sits at `i`.
pub proof fn lemma_note_pos_at(notes: Seq<NoteV>, p: Seq<char>, i: int)
    requires
        0 <= i < notes.len(),
        notes[i].path == p,
        forall|j: int| 0 <= j < i ==> notes[j].path != p,
    ensures
        note_pos(notes, p) == Some(i),
    decreases notes.len(),
{
    if i > 0 {
        assert forall|j: int| 0 <= j < i - 1 implies notes.drop_first()[j].path != p by {
            assert(notes.drop_first()[j] == notes[j + 1]);
        }
        lemma_note_pos_at(notes.drop_first(), p, i - 1);
    }
}

/// With unique paths, the note at `j` is the one stored under its path.
pub proof fn lemma_note_get_unique(notes: Seq<NoteV>, j: int)
    requires
        notes_unique(notes),
        0 <= j < notes.len(),
    ensures
        note_get(notes, notes[j].path) == Some(notes[j]),
{
    let p = notes[j].path;
    assert forall|k: int| 0 <= k < j implies notes[k].path != p by {
        assert(notes[k].path != notes[j].path);
    }
    lemma_note_pos_at(notes, p, j);
}

/// A path no note has is not found.
pub proof fn lemma_note_get_absent(notes: Seq<NoteV>, p: Seq<char>)
    requires
        forall|j: int| 0 <= j < notes.len() ==> notes[j].path != p,
    ensures
        note_get(notes, p) is None,
{
    lemma_note_pos(notes, p);
}

/// Lookup in a sequence with unique paths, in terms of membership.
pub proof fn lemma_note_get_by_members(notes: Seq<NoteV>, q: Seq<char>)
    requires
        notes_unique(notes),
    ensures
        note_get(notes, q) is None <==> forall|j: int| 0 <= j < notes.len() ==> notes[j].path != q,
        note_get(notes, q) matches Some(n) ==> exists|j: int|
            0 <= j < notes.len() && notes[j] == n && n.path == q,
{
    lemma_note_pos(notes, q);
    if let Some(i) = note_pos(notes, q) {
        assert(notes[i].path == q);
    }
}

/// Reading back a written note: once the file at `p` has been indexed with
/// `content`, the note stored under `p` is the one that `content` describes,
/// and every other path keeps its note.
pub proof fn law_index_file_read_back(idx: IndexV, p: Seq<char>, content: Seq<char>, q: Seq<char>)
    requires
        index_wf(idx),
    ensures
        note_get(indexed(idx, p, content).notes, p) == Some(note_of(p, content).0),
        q != p ==> note_get(indexed(idx, p, content).notes, q) == note_get(idx.notes, q),
{
    let n = note_of(p, content).0;
    let notes = idx.notes;
    let next = notes_insert(notes, n);
    assert(notes_unique(notes));
    lemma_notes_insert_unique(notes, n);
    lemma_note_pos(notes, p);
    match note_pos(notes, p) {
        Some(i) => {
            assert(next[i] == n);
            lemma_note_get_unique(next, i);
        },
        None => {
            assert(next[notes.len() as int] == n);
            lemma_note_get_unique(next, notes.len() as int);
        },
    }
    if q != p {
        lemma_note_get_by_members(notes, q);
        lemma_note_get_by_members(next, q);
        if let Some(m) = note_get(notes, q) {
            let j = choose|j: int| 0 <= j < notes.len() && notes[j] == m && m.path == q;
            assert(next[j] == m);
            lemma_note_get_unique(next, j);
        } else {
            assert forall|j: int| 0 <= j < next.len() implies next[j].path != q by {
                if j < notes.len() {
                    if next[j] != notes[j] {
                        assert(next[j] == n);
                    }
                }
            }
        }
    }
}

/// Removing a file removes it from the index entirely: no note remains
/// under its path, every other path keeps its note, and no edge or
/// backlink starts or ends at the removed path. Removing a path without a
/// note changes nothing.
pub proof fn law_remove_file(idx: IndexV, p: Seq<char>, q: Seq<char>)
    requires
        index_wf(idx),
    ensures
        note_get(removed(idx, p).notes, p) is None,
        q != p ==> note_get(removed(idx, p).notes, q) == note_get(idx.notes, q),
        note_get(idx.notes, p) is Some ==> forall|k: int|
            0 <= k < removed(idx, p).backlinks.len() ==> (#[trigger] removed(idx, p).backlinks[k]).0
                != p && removed(idx, p).backlinks[k].1.source_path != p,
        note_get(idx.notes, p) is Some ==> forall|k: int|
            0 <= k < removed(idx, p).edges.len() ==> (#[trigger] removed(idx, p).edges[k]).source
                != p && removed(idx, p).edges[k].target != p,
        note_get(idx.notes, p) is Some ==> backlinks_to(removed(idx, p), p).len() == 0,
        note_get(idx.notes, p) is None ==> removed(idx, p) == idx,
{
    broadcast use vstd::seq_lib::group_filter_ensures;

    let notes = idx.notes;
    assert(notes_unique(notes));
    lemma_note_pos(notes, p);
    match note_pos(notes, p) {
        None => {
            lemma_note_get_absent(notes, p);
        },
        Some(i) => {
            let next = notes.remove(i);
            lemma_notes_remove_unique(notes, p);
            assert forall|j: int| 0 <= j < next.len() implies next[j].path != p by {
                if j < i {
                    assert(next[j] == notes[j]);
                    assert(notes[j].path != notes[i].path);
                } else {
                    assert(next[j] == notes[j + 1]);
                    assert(notes[i].path != notes[j + 1].path);
                }
            }
            lemma_note_get_absent(next, p);
            if q != p {
                lemma_note_get_by_members(notes, q);
                lemma_note_get_by_members(next, q);
                if let Some(m) = note_get(notes, q) {
                    let j = choose|j: int| 0 <= j < notes.len() && notes[j] == m && m.path == q;
                    assert(j != i);
                    let j2 = if j < i { j } else { j - 1 };
                    assert(next[j2] == m);
                    lemma_note_get_unique(next, j2);
                } else {
                    assert forall|j: int| 0 <= j < next.len() implies next[j].path != q by {
                        if j < i {
                            assert(next[j] == notes[j]);
                        } else {
                            assert(next[j] == notes[j + 1]);
                        }
                    }
                }
            }
            let bs = removed(idx, p).backlinks;
            assert forall|k: int| 0 <= k < bs.len() implies (#[trigger] bs[k]).0 != p
                && bs[k].1.source_path != p by {
                assert(backlink_clear_of(p)(bs[k]));
            }
            let es = removed(idx, p).edges;
            assert forall|k: int| 0 <= k < es.len() implies (#[trigger] es[k]).source != p
                && es[k].target != p by {
                assert(edge_clear_of(p)(es[k]));
            }
            lemma_no_backlinks_to(removed(idx, p), p);
        },
    }
}

/// Dropping links only removes edges and backlinks.
pub proof fn lemma_drop_links_sub(
    es: Seq<EdgeV>,
    bs: Seq<(Seq<char>, BacklinkV)>,
    p: Seq<char>,
    notes: Seq<NoteV>,
    links: Seq<WikilinkV>,
)
    ensures
        forall|x: (Seq<char>, BacklinkV)|
            #[trigger] drop_links(es, bs, p, notes, links).1.contains(x) ==> bs.contains(x),
        forall|e: EdgeV| #[trigger] drop_links(es, bs, p, notes, links).0.contains(e) ==> es.contains(e),
    decreases links.len(),
{
    if links.len() > 0 {
        lemma_drop_links_sub(es, bs, p, notes, links.drop_last());
        let (e2, b2) = drop_links(es, bs, p, notes, links.drop_last());
        if let Some(t) = resolve(links.last().target, notes) {
            assert forall|x: (Seq<char>, BacklinkV)| #[trigger]
                drop_backlinks(b2, p, t).contains(x) implies bs.contains(x) by {
                b2.lemma_filter_contains_rev(keeps_backlink(p, t), x);
            }
            assert forall|e: EdgeV| #[trigger] drop_edges(e2, p, t).contains(e) implies es.contains(
                e,
            ) by {
                e2.lemma_filter_contains_rev(keeps_edge(p, t), e);
            }
        }
    }
}

/// With no backlink entry pointing to `p`, there are no backlinks to `p`.
pub proof fn lemma_no_backlinks_to(idx: IndexV, p: Seq<char>)
    requires
        forall|k: int| 0 <= k < idx.backlinks.len() ==> (#[trigger] idx.backlinks[k]).0 != p,
    ensures
        backlinks_to(idx, p).len() == 0,
{
    idx.backlinks.lemma_all_neg_filter_empty(points_to(p));
}

// ---------------------------------------------------------------------------
// Graph edges and backlinks
// ---------------------------------------------------------------------------

/// Edge `k` and backlink `k` describe the same link: same source, and the
/// backlink is listed under the edge's target.
pub open spec fn corresponds(es: Seq<EdgeV>, bs: Seq<(Seq<char>, BacklinkV)>) -> bool {
    &&& es.len() == bs.len()
    &&& forall|k: int|
        0 <= k < es.len() ==> (#[trigger] es[k]).source == (#[trigger] bs[k]).1.source_path
            && es[k].target == bs[k].0
}

/// Every edge points to a note of the index.
pub open spec fn edges_resolved(idx: IndexV) -> bool {
    forall|k: int| 0 <= k < idx.edges.len() ==> has_path(idx.notes, (#[trigger] idx.edges[k]).target)
}

/// Every backlink is listed under a note of the index.
pub open spec fn backlinks_resolved(idx: IndexV) -> bool {
    forall|k: int|
        0 <= k < idx.backlinks.len() ==> has_path(idx.notes, (#[trigger] idx.backlinks[k]).0)
}

/// A record whose edge and backlink agree.
pub open spec fn coherent(r: LinkRecord) -> bool {
    r.0.source == r.1.1.source_path && r.0.target == r.1.0
}

/// The records of a note's links agree and point to notes of `notes`.
pub proof fn lemma_link_pairs_ok(
    notes: Seq<NoteV>,
    src: Seq<char>,
    title: Seq<char>,
    body: Seq<char>,
    links: Seq<WikilinkV>,
)
    ensures
        forall|k: int|
            0 <= k < link_pairs(notes, src, title, body, links).len() ==> coherent(
                #[trigger] link_pairs(notes, src, title, body, links)[k],
            ) && has_path(notes, link_pairs(notes, src, title, body, links)[k].1.0),
    decreases links.len(),
{
    if links.len() > 0 {
        lemma_link_pairs_ok(notes, src, title, body, links.drop_last());
        lemma_resolve_in_index(links.last().target, notes);
        let prev = link_pairs(notes, src, title, body, links.drop_last());
        let all = link_pairs(notes, src, title, body, links);
        assert forall|k: int| 0 <= k < all.len() implies coherent(#[trigger] all[k]) && has_path(
            notes,
            all[k].1.0,
        ) by {
            if k < prev.len() {
                assert(all[k] == prev[k]);
            }
        }
    }
}

/// The records of all parsed files agree and point to notes of `notes`.
pub proof fn lemma_pairs_from_ok(notes: Seq<NoteV>, parsed: Seq<(NoteV, Seq<char>)>)
    ensures
        forall|k: int|
            0 <= k < pairs_from(notes, parsed).len() ==> coherent(
                #[trigger] pairs_from(notes, parsed)[k],
            ) && has_path(notes, pairs_from(notes, parsed)[k].1.0),
    decreases parsed.len(),
{
    if parsed.len() > 0 {
        lemma_pairs_from_ok(notes, parsed.drop_last());
        let (n, body) = parsed.last();
        lemma_link_pairs_ok(notes, n.path, n.title, body, n.outgoing_links);
        let prev = pairs_from(notes, parsed.drop_last());
        let added = link_pairs(notes, n.path, n.title, body, n.outgoing_links);
        let all = pairs_from(notes, parsed);
        assert forall|k: int| 0 <= k < all.len() implies coherent(#[trigger] all[k]) && has_path(
            notes,
            all[k].1.0,
        ) by {
            if k < prev.len() {
                assert(all[k] == prev[k]);
            } else {
                assert(all[k] == added[k - prev.len()]);
            }
        }
    }
}

/// Agreeing records give corresponding edges and backlinks.
pub proof fn lemma_records_correspond(rs: Seq<LinkRecord>)
    requires
        forall|k: int| 0 <= k < rs.len() ==> coherent(#[trigger] rs[k]),
    ensures
        corresponds(record_edges(rs), record_backlinks(rs)),
{
    assert forall|k: int| 0 <= k < rs.len() implies (#[trigger] record_edges(rs)[k]).source == (
    #[trigger] record_backlinks(rs)[k]).1.source_path && record_edges(rs)[k].target
        == record_backlinks(rs)[k].0 by {
        assert(coherent(rs[k]));
    }
}

/// Filtering corresponding sequences with matching predicates keeps them
/// corresponding.
pub proof fn lemma_filter_correspond(
    es: Seq<EdgeV>,
    bs: Seq<(Seq<char>, BacklinkV)>,
    fe: spec_fn(EdgeV) -> bool,
    fb: spec_fn((Seq<char>, BacklinkV)) -> bool,
)
    requires
        corresponds(es, bs),
        forall|k: int| 0 <= k < es.len() ==> fe(#[trigger] es[k]) == fb(bs[k]),
    ensures
        corresponds(es.filter(fe), bs.filter(fb)),
    decreases es.len(),
{
    reveal(Seq::filter);
    if es.len() > 0 {
        let es2 = es.drop_last();
        let bs2 = bs.drop_last();
        assert forall|k: int| 0 <= k < es2.len() implies (#[trigger] es2[k]).source == (
        #[trigger] bs2[k]).1.source_path && es2[k].target == bs2[k].0 by {
            assert(es2[k] == es[k] && bs2[k] == bs[k]);
        }
        assert forall|k: int| 0 <= k < es2.len() implies fe(#[trigger] es2[k]) == fb(bs2[k]) by {
            assert(es2[k] == es[k] && bs2[k] == bs[k]);
        }
        lemma_filter_correspond(es2, bs2, fe, fb);
        assert(es.last() == es[es.len() - 1]);
        assert(bs.last() == bs[bs.len() - 1]);
        assert(fe(es[es.len() - 1]) == fb(bs[bs.len() - 1]));
        let fe2 = es2.filter(fe);
        let fb2 = bs2.filter(fb);
        if fe(es.last()) {
            assert(es.filter(fe) == fe2.push(es.last()));
            assert(bs.filter(fb) == fb2.push(bs.last()));
            assert forall|k: int| 0 <= k < es.filter(fe).len() implies (#[trigger] es.filter(
                fe,
            )[k]).source == (#[trigger] bs.filter(fb)[k]).1.source_path && es.filter(fe)[k].target
                == bs.filter(fb)[k].0 by {
                if k < fe2.len() {
                    assert(es.filter(fe)[k] == fe2[k]);
                    assert(bs.filter(fb)[k] == fb2[k]);
                }
            }
        }
    }
}

/// Dropping links keeps edges and backlinks corresponding.
pub proof fn lemma_drop_links_correspond(
    es: Seq<EdgeV>,
    bs: Seq<(Seq<char>, BacklinkV)>,
    p: Seq<char>,
    notes: Seq<NoteV>,
    links: Seq<WikilinkV>,
)
    requires
        corresponds(es, bs),
    ensures
        corresponds(drop_links(es, bs, p, notes, links).0, drop_links(es, bs, p, notes, links).1),
    decreases links.len(),
{
    if links.len() > 0 {
        lemma_drop_links_correspond(es, bs, p, notes, links.drop_last());
        let (e2, b2) = drop_links(es, bs, p, notes, links.drop_last());
        if let Some(t) = resolve(links.last().target, notes) {
            assert forall|k: int| 0 <= k < e2.len() implies keeps_edge(p, t)(#[trigger] e2[k])
                == keeps_backlink(p, t)(b2[k]) by {
                assert(e2[k].source == b2[k].1.source_path && e2[k].target == b2[k].0);
            }
            lemma_filter_correspond(e2, b2, keeps_edge(p, t), keeps_backlink(p, t));
        }
    }
}

/// Concatenating corresponding sequences.
pub proof fn lemma_concat_correspond(
    e1: Seq<EdgeV>,
    b1: Seq<(Seq<char>, BacklinkV)>,
    e2: Seq<EdgeV>,
    b2: Seq<(Seq<char>, BacklinkV)>,
)
    requires
        corresponds(e1, b1),
        corresponds(e2, b2),
    ensures
        corresponds(e1 + e2, b1 + b2),
{
    assert forall|k: int| 0 <= k < (e1 + e2).len() implies (#[trigger] (e1 + e2)[k]).source == (
    #[trigger] (b1 + b2)[k]).1.source_path && (e1 + e2)[k].target == (b1 + b2)[k].0 by {
        if k < e1.len() {
            assert((e1 + e2)[k] == e1[k] && (b1 + b2)[k] == b1[k]);
        } else {
            assert((e1 + e2)[k] == e2[k - e1.len()] && (b1 + b2)[k] == b2[k - e1.len()]);
        }
    }
}

/// A freshly built index: edge `k` and backlink `k` describe the same link,
/// and every edge and every backlink points to a note of the index.
pub proof fn law_rebuild_links(files: Seq<(Seq<char>, Seq<char>)>)
    ensures
        corresponds(rebuilt(files).edges, rebuilt(files).backlinks),
        edges_resolved(rebuilt(files)),
        backlinks_resolved(rebuilt(files)),
{
    let parsed = parse_files(files);
    let notes = notes_from(parsed);
    let rs = pairs_from(notes, parsed);
    lemma_pairs_from_ok(notes, parsed);
    lemma_records_correspond(rs);
    let idx = rebuilt(files);
    assert forall|k: int| 0 <= k < idx.edges.len() implies has_path(
        idx.notes,
        (#[trigger] idx.edges[k]).target,
    ) by {
        assert(idx.edges[k] == rs[k].0);
        assert(coherent(rs[k]));
    }
    assert forall|k: int| 0 <= k < idx.backlinks.len() implies has_path(
        idx.notes,
        (#[trigger] idx.backlinks[k]).0,
    ) by {
        assert(idx.backlinks[k] == rs[k].1);
    }
}

/// Inserting a note keeps every path present.
pub proof fn lemma_insert_keeps_paths(notes: Seq<NoteV>, n: NoteV, q: Seq<char>)
    requires
        has_path(notes, q),
    ensures
        has_path(notes_insert(notes, n), q),
{
    lemma_note_pos(notes, n.path);
    let j = choose|j: int| 0 <= j < notes.len() && notes[j].path == q;
    let next = notes_insert(notes, n);
    match note_pos(notes, n.path) {
        Some(i) => {
            if i == j {
                assert(next[j].path == q);
            } else {
                assert(next[j] == notes[j]);
            }
        },
        None => {
            assert(next[j] == notes[j]);
        },
    }
}

/// Indexing a file keeps edges and backlinks corresponding, and keeps every
/// edge and every backlink pointing to a note of the index.
pub proof fn law_index_file_links(idx: IndexV, p: Seq<char>, content: Seq<char>)
    requires
        index_wf(idx),
    ensures
        corresponds(idx.edges, idx.backlinks) ==> corresponds(
            indexed(idx, p, content).edges,
            indexed(idx, p, content).backlinks,
        ),
        edges_resolved(idx) ==> edges_resolved(indexed(idx, p, content)),
        backlinks_resolved(idx) ==> backlinks_resolved(indexed(idx, p, content)),
{
    let (n, body) = note_of(p, content);
    let rs = link_pairs(idx.notes, p, n.title, body, n.outgoing_links);
    lemma_link_pairs_ok(idx.notes, p, n.title, body, n.outgoing_links);
    lemma_records_correspond(rs);
    let next = indexed(idx, p, content);
    let (e1, b1) = match note_get(idx.notes, p) {
        Some(old) => drop_links(idx.edges, idx.backlinks, p, idx.notes, old.outgoing_links),
        None => (idx.edges, idx.backlinks),
    };
    assert(next.edges == e1 + record_edges(rs));
    assert(next.backlinks == b1 + record_backlinks(rs));
    if corresponds(idx.edges, idx.backlinks) {
        if let Some(old) = note_get(idx.notes, p) {
            lemma_drop_links_correspond(idx.edges, idx.backlinks, p, idx.notes, old.outgoing_links);
        }
        lemma_concat_correspond(e1, b1, record_edges(rs), record_backlinks(rs));
    }
    if let Some(old) = note_get(idx.notes, p) {
        lemma_drop_links_sub(idx.edges, idx.backlinks, p, idx.notes, old.outgoing_links);
    }
    if edges_resolved(idx) {
        assert forall|k: int| 0 <= k < next.edges.len() implies has_path(
            next.notes,
            (#[trigger] next.edges[k]).target,
        ) by {
            if k < e1.len() {
                assert(next.edges[k] == e1[k]);
                assert(e1.contains(e1[k]));
                assert(idx.edges.contains(e1[k]));
                let j = choose|j: int| 0 <= j < idx.edges.len() && idx.edges[j] == e1[k];
                assert(has_path(idx.notes, idx.edges[j].target));
            } else {
                assert(next.edges[k] == rs[k - e1.len()].0);
                assert(coherent(rs[k - e1.len()]));
            }
            lemma_insert_keeps_paths(idx.notes, n, next.edges[k].target);
        }
    }
    if backlinks_resolved(idx) {
        assert forall|k: int| 0 <= k < next.backlinks.len() implies has_path(
            next.notes,
            (#[trigger] next.backlinks[k]).0,
        ) by {
            if k < b1.len() {
                assert(next.backlinks[k] == b1[k]);
                assert(b1.contains(b1[k]));
                assert(idx.backlinks.contains(b1[k]));
                let j = choose|j: int| 0 <= j < idx.backlinks.len() && idx.backlinks[j] == b1[k];
                assert(has_path(idx.notes, idx.backlinks[j].0));
            } else {
                assert(next.backlinks[k] == rs[k - b1.len()].1);
            }
            lemma_insert_keeps_paths(idx.notes, n, next.backlinks[k].0);
        }
    }
}

/// Removing a file keeps edges and backlinks corresponding and keeps every
/// edge and backlink pointing at an existing note.
pub proof fn law_remove_file_links(idx: IndexV, p: Seq<char>)
    requires
        index_wf(idx),
    ensures
        backlinks_resolved(idx) ==> backlinks_resolved(removed(idx, p)),
        corresponds(idx.edges, idx.backlinks) ==> corresponds(removed(idx, p).edges, removed(idx, p).backlinks),
        edges_resolved(idx) ==> edges_resolved(removed(idx, p)),
{
    broadcast use vstd::seq_lib::group_filter_ensures;

    let notes = idx.notes;
    lemma_note_pos(notes, p);
    if let Some(i) = note_pos(notes, p) {
        let next_notes = notes_remove(notes, p);
        let next = removed(idx, p);
        // A path other than p keeps its note.
        assert forall|q: Seq<char>| q != p && has_path(notes, q) implies has_path(next_notes, q) by {
            let j = choose|j: int| 0 <= j < notes.len() && notes[j].path == q;
            if j < i {
                assert(next_notes[j] == notes[j]);
            } else {
                assert(j != i);
                assert(next_notes[j - 1] == notes[j]);
            }
        }
        if backlinks_resolved(idx) {
            assert forall|k: int| 0 <= k < next.backlinks.len() implies has_path(
                next.notes,
                (#[trigger] next.backlinks[k]).0,
            ) by {
                let x = next.backlinks[k];
                assert(backlink_clear_of(p)(x));
                assert(next.backlinks.contains(x));
                idx.backlinks.lemma_filter_contains_rev(backlink_clear_of(p), x);
                let j = choose|j: int| 0 <= j < idx.backlinks.len() && idx.backlinks[j] == x;
                assert(has_path(notes, idx.backlinks[j].0));
            }
        }
        if corresponds(idx.edges, idx.backlinks) {
            assert forall|k: int| 0 <= k < idx.edges.len() implies edge_clear_of(p)(#[trigger] idx.edges[k])
                == backlink_clear_of(p)(idx.backlinks[k]) by {
                assert(idx.edges[k].source == idx.backlinks[k].1.source_path);
                assert(idx.edges[k].target == idx.backlinks[k].0);
            }
            lemma_filter_correspond(idx.edges, idx.backlinks, edge_clear_of(p), backlink_clear_of(p));
        }
        if edges_resolved(idx) {
            assert forall|k: int| 0 <= k < next.edges.len() implies has_path(
                next.notes,
                (#[trigger] next.edges[k]).target,
            ) by {
                let x = next.edges[k];
                assert(edge_clear_of(p)(x));
                assert(next.edges.contains(x));
                idx.edges.lemma_filter_contains_rev(edge_clear_of(p), x);
                let j = choose|j: int| 0 <= j < idx.edges.len() && idx.edges[j] == x;
                assert(has_path(notes, idx.edges[j].target));
            }
        }
    }
}

// ---------------------------------------------------------------------------
// Tag counts
// ---------------------------------------------------------------------------

/// Counts never increase along the sequence.
pub open spec fn sorted_by_count(s: Seq<(Seq<char>, nat)>) -> bool {
    forall|i: int, j: int| 0 <= i < j < s.len() ==> #[trigger] s[i].1 >= #[trigger] s[j].1
}

/// Leading entries counted by `count_prefix` have a count of at least `c`,
/// and in a sorted sequence the rest have less.
pub proof fn lemma_count_prefix_split(s: Seq<(Seq<char>, nat)>, c: nat)
    requires
        sorted_by_count(s),
    ensures
        forall|j: int| 0 <= j < count_prefix(s, c) ==> #[trigger] s[j].1 >= c,
        forall|j: int| count_prefix(s, c) <= j < s.len() ==> #[trigger] s[j].1 < c,
    decreases s.len(),
{
    lemma_count_prefix_bound(s, c);
    if s.len() > 0 {
        let t = s.drop_first();
        assert forall|i: int, j: int| 0 <= i < j < t.len() implies #[trigger] t[i].1 >= #[trigger] t[j].1 by {
            assert(t[i] == s[i + 1] && t[j] == s[j + 1]);
        }
        lemma_count_prefix_split(t, c);
        if s[0].1 >= c {
            assert(count_prefix(s, c) == 1 + count_prefix(t, c));
            assert forall|j: int| 0 <= j < count_prefix(s, c) implies #[trigger] s[j].1 >= c by {
                if j > 0 {
                    assert(s[j] == t[j - 1]);
                }
            }
            assert forall|j: int| count_prefix(s, c) <= j < s.len() implies #[trigger] s[j].1 < c by {
                assert(s[j] == t[j - 1]);
            }
        } else {
            assert forall|j: int| 0 <= j < s.len() implies #[trigger] s[j].1 < c by {
                if j > 0 {
                    assert(s[0].1 >= s[j].1);
                }
            }
        }
    }
}

/// The tag list is ordered by count, largest first, and holds exactly the
/// entries it was made from.
pub proof fn law_tags_sorted(s: Seq<(Seq<char>, nat)>)
    ensures
        sorted_by_count(sort_by_count(s)),
        sort_by_count(s).to_multiset() == s.to_multiset(),
    decreases s.len(),
{
    if s.len() > 0 {
        let prev = sort_by_count(s.drop_last());
        law_tags_sorted(s.drop_last());
        let x = s.last();
        let k = count_prefix(prev, x.1);
        lemma_count_prefix_split(prev, x.1);
        lemma_count_prefix_bound(prev, x.1);
        let next = prev.insert(k, x);
        prev.insert_ensures(k, x);
        assert forall|i: int, j: int| 0 <= i < j < next.len() implies #[trigger] next[i].1
            >= #[trigger] next[j].1 by {
            if j < k {
                assert(next[i] == prev[i] && next[j] == prev[j]);
            } else if j == k {
                assert(next[i] == prev[i]);
            } else if i < k {
                assert(next[i] == prev[i] && next[j] == prev[j - 1]);
            } else if i == k {
                assert(next[j] == prev[j - 1]);
            } else {
                assert(next[i] == prev[i - 1] && next[j] == prev[j - 1]);
            }
        }
        vstd::seq_lib::to_multiset_insert(prev, k, x);
        vstd::seq_lib::to_multiset_build(s.drop_last(), x);
        assert(s.drop_last().push(x) =~= s);
        assert(sort_by_count(s) == next);
        assert(next.to_multiset() =~= prev.to_multiset().insert(x));
        assert(s.to_multiset() =~= s.drop_last().to_multiset().insert(x));
    } else {
        assert(sort_by_count(s) =~= s);
    }
}

// ---------------------------------------------------------------------------
// The tag index
// ---------------------------------------------------------------------------

/// The entry of tag `t` lists the path `q`.
pub open spec fn tag_lists(tags: Seq<(Seq<char>, Seq<Seq<char>>)>, t: Seq<char>, q: Seq<char>) -> bool {
    exists|i: int| #![trigger tags[i]] 0 <= i < tags.len() && tags[i].0 == t && tags[i].1.contains(q)
}

/// The note at `q` carries tag `t`.
pub open spec fn carries(notes: Seq<NoteV>, q: Seq<char>, t: Seq<char>) -> bool {
    note_get(notes, q) matches Some(n) && all_tags(n).contains(t)
}

/// The tag index lists exactly the notes that carry each tag.
pub open spec fn tags_consistent(idx: IndexV) -> bool {
    forall|t: Seq<char>, q: Seq<char>|
        #![trigger tag_lists(idx.tags, t, q)]
        #![trigger carries(idx.notes, q, t)]
        tag_lists(idx.tags, t, q) <==> carries(idx.notes, q, t)
}

/// Adding one path to one tag.
proof fn lemma_tag_push_lists(
    tags: Seq<(Seq<char>, Seq<Seq<char>>)>,
    t0: Seq<char>,
    p: Seq<char>,
    t: Seq<char>,
    q: Seq<char>,
)
    requires
        tags_unique(tags),
    ensures
        tag_lists(tag_push(tags, t0, p), t, q) <==> (tag_lists(tags, t, q) || (t == t0 && q == p)),
{
    lemma_tag_pos(tags, t0);
    let next = tag_push(tags, t0, p);
    match tag_pos(tags, t0) {
        Some(i) => {
            vstd::seq_lib::lemma_seq_contains_after_push(tags[i].1, p, q);
            if tag_lists(next, t, q) {
                let j = choose|j: int| #![trigger next[j]] 0 <= j < next.len() && next[j].0 == t && next[j].1.contains(q);
                if j != i {
                    assert(next[j] == tags[j]);
                    assert(tag_lists(tags, t, q));
                } else if q != p {
                    assert(tags[i].1.contains(q));
                    assert(tag_lists(tags, t, q));
                }
            }
            if tag_lists(tags, t, q) {
                let j = choose|j: int| #![trigger tags[j]] 0 <= j < tags.len() && tags[j].0 == t && tags[j].1.contains(q);
                if j != i {
                    assert(next[j] == tags[j]);
                } else {
                    assert(next[i].1.contains(q));
                }
                assert(tag_lists(next, t, q));
            }
            if t == t0 && q == p {
                assert(next[i].1.contains(q));
                assert(tag_lists(next, t, q));
            }
        },
        None => {
            let n = tags.len() as int;
            assert(next[n].1 == seq![p]);
            if tag_lists(next, t, q) {
                let j = choose|j: int| #![trigger next[j]] 0 <= j < next.len() && next[j].0 == t && next[j].1.contains(q);
                if j < n {
                    assert(next[j] == tags[j]);
                    assert(tag_lists(tags, t, q));
                } else {
                    assert(seq![p].contains(q));
                    let k = choose|k: int| 0 <= k < seq![p].len() && seq![p][k] == q;
                    assert(q == p);
                }
            }
            if tag_lists(tags, t, q) {
                let j = choose|j: int| #![trigger tags[j]] 0 <= j < tags.len() && tags[j].0 == t && tags[j].1.contains(q);
                assert(next[j] == tags[j]);
                assert(tag_lists(next, t, q));
            }
            if t == t0 && q == p {
                assert(next[n].1[0] == p);
                assert(next[n].1.contains(q));
                assert(tag_lists(next, t, q));
            }
        },
    }
}

/// Adding one path under several tags.
proof fn lemma_tags_add_lists(
    tags: Seq<(Seq<char>, Seq<Seq<char>>)>,
    p: Seq<char>,
    ts: Seq<Seq<char>>,
    t: Seq<char>,
    q: Seq<char>,
)
    requires
        tags_unique(tags),
    ensures
        tag_lists(tags_add(tags, p, ts), t, q) <==> (tag_lists(tags, t, q) || (q == p && ts.contains(t))),
    decreases ts.len(),
{
    if ts.len() > 0 {
        let init = ts.drop_last();
        lemma_tags_add_lists(tags, p, init, t, q);
        lemma_tags_add_unique(tags, p, init);
        lemma_tag_push_lists(tags_add(tags, p, init), ts.last(), p, t, q);
        assert(ts =~= init.push(ts.last()));
        vstd::seq_lib::lemma_seq_contains_after_push(init, ts.last(), t);
    } else {
        assert(!ts.contains(t));
    }
}

/// Dropping one path from one tag.
proof fn lemma_tag_retain_lists(
    tags: Seq<(Seq<char>, Seq<Seq<char>>)>,
    t0: Seq<char>,
    p: Seq<char>,
    t: Seq<char>,
    q: Seq<char>,
)
    requires
        tags_unique(tags),
    ensures
        tag_lists(tag_retain(tags, t0, p), t, q) <==> (tag_lists(tags, t, q) && !(t == t0 && q == p)),
{
    broadcast use vstd::seq_lib::group_filter_ensures;

    lemma_tag_pos(tags, t0);
    let next = tag_retain(tags, t0, p);
    match tag_pos(tags, t0) {
        Some(i) => {
            let kept = tags[i].1.filter(other_than(p));
            assert(next[i] == (t0, kept));
            if tag_lists(next, t, q) {
                let j = choose|j: int| #![trigger next[j]] 0 <= j < next.len() && next[j].0 == t && next[j].1.contains(q);
                if j != i {
                    assert(next[j] == tags[j]);
                    assert(tag_lists(tags, t, q));
                    assert(t != t0);
                } else {
                    tags[i].1.lemma_filter_contains_rev(other_than(p), q);
                    assert(tag_lists(tags, t, q));
                    let k = choose|k: int| 0 <= k < kept.len() && kept[k] == q;
                    assert(other_than(p)(kept[k]));
                }
            }
            if tag_lists(tags, t, q) && !(t == t0 && q == p) {
                let j = choose|j: int| #![trigger tags[j]] 0 <= j < tags.len() && tags[j].0 == t && tags[j].1.contains(q);
                if j != i {
                    assert(next[j] == tags[j]);
                } else {
                    let k = choose|k: int| 0 <= k < tags[i].1.len() && tags[i].1[k] == q;
                    tags[i].1.lemma_filter_contains(other_than(p), k);
                    assert(next[i].1.contains(q));
                }
                assert(tag_lists(next, t, q));
            }
        },
        None => {
            if tag_lists(tags, t, q) && t == t0 {
                let j = choose|j: int| #![trigger tags[j]] 0 <= j < tags.len() && tags[j].0 == t && tags[j].1.contains(q);
                assert(tags[j].0 != t0);
            }
        },
    }
}

/// Dropping one path from several tags.
proof fn lemma_tags_remove_lists(
    tags: Seq<(Seq<char>, Seq<Seq<char>>)>,
    p: Seq<char>,
    ts: Seq<Seq<char>>,
    t: Seq<char>,
    q: Seq<char>,
)
    requires
        tags_unique(tags),
    ensures
        tag_lists(tags_remove(tags, p, ts), t, q) <==> (tag_lists(tags, t, q) && !(q == p && ts.contains(t))),
    decreases ts.len(),
{
    if ts.len() > 0 {
        let init = ts.drop_last();
        lemma_tags_remove_lists(tags, p, init, t, q);
        lemma_tags_remove_unique(tags, p, init);
        lemma_tag_retain_lists(tags_remove(tags, p, init), ts.last(), p, t, q);
        assert(ts =~= init.push(ts.last()));
        vstd::seq_lib::lemma_seq_contains_after_push(init, ts.last(), t);
    } else {
        assert(!ts.contains(t));
    }
}

/// Notes of files with distinct paths: each file's note is found under its
/// path.
proof fn lemma_rebuild_tags_step(parsed: Seq<(NoteV, Seq<char>)>)
    requires
        forall|a: int, b: int|
            0 <= a < b < parsed.len() ==> #[trigger] parsed[a].0.path != #[trigger] parsed[b].0.path,
    ensures
        forall|t: Seq<char>, q: Seq<char>|
            #![trigger tag_lists(tags_from_parsed(parsed), t, q)]
            #![trigger carries(notes_from(parsed), q, t)]
            tag_lists(tags_from_parsed(parsed), t, q) <==> carries(notes_from(parsed), q, t),
        forall|j: int| 0 <= j < parsed.len() ==> has_path(notes_from(parsed), #[trigger] parsed[j].0.path),
        forall|q: Seq<char>|
            has_path(notes_from(parsed), q) ==> exists|j: int| 0 <= j < parsed.len() && #[trigger] parsed[j].0.path == q,
    decreases parsed.len(),
{
    if parsed.len() > 0 {
        let init = parsed.drop_last();
        assert forall|a: int, b: int| 0 <= a < b < init.len() implies #[trigger] init[a].0.path
            != #[trigger] init[b].0.path by {
            assert(init[a] == parsed[a] && init[b] == parsed[b]);
        }
        lemma_rebuild_tags_step(init);
        let n = parsed.last().0;
        let notes0 = notes_from(init);
        let tags0 = tags_from_parsed(init);
        lemma_notes_from_unique(init);
        lemma_tags_from_parsed_unique(init);
        lemma_note_pos(notes0, n.path);
        assert(!has_path(notes0, n.path)) by {
            if has_path(notes0, n.path) {
                let j = choose|j: int| 0 <= j < init.len() && #[trigger] init[j].0.path == n.path;
                assert(parsed[j].0.path != parsed[parsed.len() - 1].0.path);
            }
        }
        assert(note_pos(notes0, n.path) is None) by {
            if note_pos(notes0, n.path) is Some {
                let i = note_pos(notes0, n.path)->0;
                assert(notes0[i].path == n.path);
            }
        }
        let notes1 = notes_from(parsed);
        assert(notes1 == notes0.push(n));
        assert forall|t: Seq<char>, q: Seq<char>|
            #![trigger tag_lists(tags_from_parsed(parsed), t, q)]
            #![trigger carries(notes_from(parsed), q, t)]
            tag_lists(tags_from_parsed(parsed), t, q) <==> carries(notes_from(parsed), q, t) by {
            lemma_tags_add_lists(tags0, n.path, all_tags(n), t, q);
            crate::index_laws::lemma_note_get_insert(notes0, n, q);
            if q == n.path {
                assert(!carries(notes0, q, t)) by {
                    lemma_note_get_absent_of(notes0, q);
                }
            }
        }
        assert forall|j: int| 0 <= j < parsed.len() implies has_path(notes1, #[trigger] parsed[j].0.path) by {
            if j < init.len() {
                assert(parsed[j] == init[j]);
                let k = choose|k: int| 0 <= k < notes0.len() && notes0[k].path == init[j].0.path;
                assert(notes1[k] == notes0[k]);
            } else {
                assert(notes1[notes0.len() as int] == n);
            }
        }
        assert forall|q: Seq<char>| has_path(notes1, q) implies exists|j: int|
            0 <= j < parsed.len() && #[trigger] parsed[j].0.path == q by {
            let k = choose|k: int| 0 <= k < notes1.len() && notes1[k].path == q;
            if k < notes0.len() {
                assert(notes1[k] == notes0[k]);
                assert(has_path(notes0, q));
                let j = choose|j: int| 0 <= j < init.len() && #[trigger] init[j].0.path == q;
                assert(parsed[j] == init[j]);
            } else {
                assert(parsed[parsed.len() - 1].0.path == q);
            }
        }
    }
}

/// A path that no note has is not found.
proof fn lemma_note_get_absent_of(notes: Seq<NoteV>, q: Seq<char>)
    requires
        !has_path(notes, q),
    ensures
        note_get(notes, q) is None,
{
    lemma_note_pos(notes, q);
    if note_pos(notes, q) is Some {
        let i = note_pos(notes, q)->0;
        assert(notes[i].path == q);
    }
}

/// Looking up after inserting a note into notes with distinct paths.
pub proof fn lemma_note_get_insert(notes: Seq<NoteV>, n: NoteV, q: Seq<char>)
    requires
        notes_unique(notes),
    ensures
        note_get(notes_insert(notes, n), q) == (if q == n.path { Some(n) } else { note_get(notes, q) }),
{
    lemma_notes_insert_unique(notes, n);
    let next = notes_insert(notes, n);
    lemma_note_pos(notes, n.path);
    match note_pos(notes, n.path) {
        Some(i) => {
            lemma_note_get_unique(next, i);
            if q != n.path {
                lemma_note_pos(notes, q);
                lemma_note_pos(next, q);
                match note_pos(notes, q) {
                    Some(k) => {
                        lemma_note_get_unique(notes, k);
                        assert(next[k] == notes[k]);
                        lemma_note_get_unique(next, k);
                    },
                    None => {
                        assert forall|j: int| 0 <= j < next.len() implies next[j].path != q by {
                            if j != i {
                                assert(next[j] == notes[j]);
                            }
                        }
                        lemma_note_get_absent(next, q);
                    },
                }
            }
        },
        None => {
            lemma_note_get_unique(next, notes.len() as int);
            if q != n.path {
                lemma_note_pos(notes, q);
                match note_pos(notes, q) {
                    Some(k) => {
                        lemma_note_get_unique(notes, k);
                        assert(next[k] == notes[k]);
                        lemma_note_get_unique(next, k);
                    },
                    None => {
                        assert forall|j: int| 0 <= j < next.len() implies next[j].path != q by {
                            if j < notes.len() {
                                assert(next[j] == notes[j]);
                            }
                        }
                        lemma_note_get_absent(next, q);
                    },
                }
            }
        },
    }
}

/// After a rebuild from files with distinct paths, the tag index lists
/// exactly the notes that carry each tag.
pub proof fn law_rebuild_tags(files: Seq<(Seq<char>, Seq<char>)>)
    requires
        forall|a: int, b: int| 0 <= a < b < files.len() ==> #[trigger] files[a].0 != #[trigger] files[b].0,
    ensures
        tags_consistent(rebuilt(files)),
{
    let parsed = parse_files(files);
    assert forall|a: int, b: int| 0 <= a < b < parsed.len() implies #[trigger] parsed[a].0.path
        != #[trigger] parsed[b].0.path by {
        assert(parsed[a].0.path == files[a].0);
        assert(parsed[b].0.path == files[b].0);
    }
    lemma_rebuild_tags_step(parsed);
}

/// Indexing a file keeps the tag index exact: the note's old tags are
/// dropped and its new ones listed.
pub proof fn law_index_file_tags(idx: IndexV, p: Seq<char>, content: Seq<char>)
    requires
        index_wf(idx),
        tags_consistent(idx),
    ensures
        tags_consistent(indexed(idx, p, content)),
{
    let n = note_of(p, content).0;
    let next = indexed(idx, p, content);
    assert(notes_unique(idx.notes));
    assert(tags_unique(idx.tags));
    let t1 = match note_get(idx.notes, p) {
        Some(old) => tags_remove(idx.tags, p, all_tags(old)),
        None => idx.tags,
    };
    assert(next.tags == tags_add(t1, p, all_tags(n)));
    if let Some(old) = note_get(idx.notes, p) {
        lemma_tags_remove_unique(idx.tags, p, all_tags(old));
    }
    assert forall|t: Seq<char>, q: Seq<char>|
        #![trigger tag_lists(next.tags, t, q)]
        #![trigger carries(next.notes, q, t)]
        tag_lists(next.tags, t, q) <==> carries(next.notes, q, t) by {
        lemma_tags_add_lists(t1, p, all_tags(n), t, q);
        if let Some(old) = note_get(idx.notes, p) {
            lemma_tags_remove_lists(idx.tags, p, all_tags(old), t, q);
        }
        lemma_note_get_insert(idx.notes, n, q);
        assert(tag_lists(idx.tags, t, q) <==> carries(idx.notes, q, t));
    }
}

/// Removing a file keeps the tag index exact: the note's tags no longer
/// list it.
pub proof fn law_remove_file_tags(idx: IndexV, p: Seq<char>)
    requires
        index_wf(idx),
        tags_consistent(idx),
    ensures
        tags_consistent(removed(idx, p)),
{
    let next = removed(idx, p);
    assert(tags_unique(idx.tags));
    if let Some(old) = note_get(idx.notes, p) {
        assert forall|t: Seq<char>, q: Seq<char>|
            #![trigger tag_lists(next.tags, t, q)]
            #![trigger carries(next.notes, q, t)]
            tag_lists(next.tags, t, q) <==> carries(next.notes, q, t) by {
            lemma_tags_remove_lists(idx.tags, p, all_tags(old), t, q);
            law_remove_file(idx, p, q);
            assert(tag_lists(idx.tags, t, q) <==> carries(idx.notes, q, t));
        }
    }
}

/// An item that a sequence holds and that maps to something is kept by
/// `filter_map`.
proof fn lemma_filter_map_keeps<A, B>(s: Seq<A>, f: spec_fn(A) -> Option<B>, x: A, b: B)
    requires
        s.contains(x),
        f(x) == Some(b),
    ensures
        s.filter_map(f).contains(b),
    decreases s.len(),
{
    let init = s.drop_last();
    if s.last() == x {
        assert(s.filter_map(f) == init.filter_map(f) + seq![b]);
        assert((init.filter_map(f) + seq![b])[init.filter_map(f).len() as int] == b);
    } else {
        let k = choose|k: int| 0 <= k < s.len() && s[k] == x;
        assert(k < s.len() - 1);
        assert(init[k] == x);
        lemma_filter_map_keeps(init, f, x, b);
        let m = choose|m: int| 0 <= m < init.filter_map(f).len() && init.filter_map(f)[m] == b;
        match f(s.last()) {
            Some(c) => {
                assert((init.filter_map(f) + seq![c])[m] == b);
            },
            None => {},
        }
    }
}

/// With an exact tag index, the notes listed under a tag are exactly the
/// notes that carry it.
pub proof fn law_notes_by_tag(idx: IndexV, t: Seq<char>)
    requires
        index_wf(idx),
        tags_consistent(idx),
    ensures
        forall|k: int| 0 <= k < notes_tagged(idx, t).len() ==> {
            &&& idx.notes.contains(#[trigger] notes_tagged(idx, t)[k])
            &&& all_tags(notes_tagged(idx, t)[k]).contains(t)
        },
        forall|j: int| 0 <= j < idx.notes.len() && all_tags(#[trigger] idx.notes[j]).contains(t)
            ==> notes_tagged(idx, t).contains(idx.notes[j]),
{
    let f = lookup_in(idx.notes);
    lemma_tag_pos(idx.tags, t);
    assert(notes_unique(idx.notes));
    assert forall|k: int| 0 <= k < notes_tagged(idx, t).len() implies {
        &&& idx.notes.contains(#[trigger] notes_tagged(idx, t)[k])
        &&& all_tags(notes_tagged(idx, t)[k]).contains(t)
    } by {
        let i = tag_pos(idx.tags, t)->0;
        let x = notes_tagged(idx, t)[k];
        assert(idx.tags[i].1.filter_map(f).contains(x));
        idx.tags[i].1.lemma_filter_map_contains(f, x);
        let q = choose|q: Seq<char>| #[trigger] idx.tags[i].1.contains(q) && f(q) == Some(x);
        assert(tag_lists(idx.tags, t, q));
        assert(carries(idx.notes, q, t));
        lemma_note_get_by_members(idx.notes, q);
    }
    assert forall|j: int| 0 <= j < idx.notes.len() && all_tags(#[trigger] idx.notes[j]).contains(t)
        implies notes_tagged(idx, t).contains(idx.notes[j]) by {
        let n = idx.notes[j];
        lemma_note_get_unique(idx.notes, j);
        assert(carries(idx.notes, n.path, t));
        assert(tag_lists(idx.tags, t, n.path));
        let i = choose|i: int| #![trigger idx.tags[i]] 0 <= i < idx.tags.len() && idx.tags[i].0 == t
            && idx.tags[i].1.contains(n.path);
        assert(tag_pos(idx.tags, t) == Some(i)) by {
            let i0 = tag_pos(idx.tags, t)->0;
            assert(idx.tags[i0].0 == t);
            if i0 != i {
                assert(idx.tags[i0].0 != idx.tags[i].0);
            }
        }
        assert(f(n.path) == Some(n));
        lemma_filter_map_keeps(idx.tags[i].1, f, n.path, n);
    }
}

/// Indexing a file keeps paths and tags unique.
pub proof fn lemma_indexed_wf(idx: IndexV, p: Seq<char>, content: Seq<char>)
    requires
        index_wf(idx),
    ensures
        index_wf(indexed(idx, p, content)),
{
    let n = note_of(p, content).0;
    assert(notes_unique(idx.notes));
    assert(tags_unique(idx.tags));
    lemma_notes_insert_unique(idx.notes, n);
    let t1 = match note_get(idx.notes, p) {
        Some(old) => tags_remove(idx.tags, p, all_tags(old)),
        None => idx.tags,
    };
    if let Some(old) = note_get(idx.notes, p) {
        lemma_tags_remove_unique(idx.tags, p, all_tags(old));
    }
    lemma_tags_add_unique(t1, p, all_tags(n));
    assert(notes_unique(indexed(idx, p, content).notes));
    assert(tags_unique(indexed(idx, p, content).tags));
}

/// Removing a file just indexed leaves the notes as they were without it,
/// and, with an exact tag index, leaves it exact.
pub proof fn law_index_then_remove(idx: IndexV, p: Seq<char>, content: Seq<char>, q: Seq<char>)
    requires
        index_wf(idx),
    ensures
        note_get(removed(indexed(idx, p, content), p).notes, q) == (if q == p {
            None
        } else {
            note_get(idx.notes, q)
        }),
        tags_consistent(idx) ==> tags_consistent(removed(indexed(idx, p, content), p)),
{
    let mid = indexed(idx, p, content);
    lemma_indexed_wf(idx, p, content);
    law_index_file_read_back(idx, p, content, q);
    law_remove_file(mid, p, q);
    if tags_consistent(idx) {
        law_index_file_tags(idx, p, content);
        law_remove_file_tags(mid, p);
    }
}

// ---------------------------------------------------------------------------
// The edges of a rebuilt index
// ---------------------------------------------------------------------------

/// The edges of the links of the note at `src` whose targets resolve among
/// `all`, in link order.
pub open spec fn link_edges(all: Seq<NoteV>, src: Seq<char>, links: Seq<WikilinkV>) -> Seq<EdgeV>
    decreases links.len(),
{
    if links.len() == 0 {
        seq![]
    } else {
        let prev = link_edges(all, src, links.drop_last());
        match resolve(links.last().target, all) {
            Some(t) => prev.push(EdgeV { source: src, target: t }),
            None => prev,
        }
    }
}

/// The edges of the resolved links of `notes`, note by note, each link
/// resolved among `all`.
pub open spec fn resolved_edges(all: Seq<NoteV>, notes: Seq<NoteV>) -> Seq<EdgeV>
    decreases notes.len(),
{
    if notes.len() == 0 {
        seq![]
    } else {
        resolved_edges(all, notes.drop_last()) + link_edges(
            all,
            notes.last().path,
            notes.last().outgoing_links,
        )
    }
}

/// The notes of parsed files, in file order.
pub open spec fn parsed_notes(parsed: Seq<(NoteV, Seq<char>)>) -> Seq<NoteV> {
    parsed.map_values(|x: (NoteV, Seq<char>)| x.0)
}

/// The edges of a note's link records are its resolved link edges.
proof fn lemma_link_pairs_edges(
    all: Seq<NoteV>,
    src: Seq<char>,
    title: Seq<char>,
    body: Seq<char>,
    links: Seq<WikilinkV>,
)
    ensures
        record_edges(link_pairs(all, src, title, body, links)) == link_edges(all, src, links),
    decreases links.len(),
{
    if links.len() > 0 {
        let init = links.drop_last();
        lemma_link_pairs_edges(all, src, title, body, init);
        let f = |l: WikilinkV| link_record(all, src, title, body, l);
        assert(link_pairs(all, src, title, body, links) == links.filter_map(f));
        assert(link_pairs(all, src, title, body, init) == init.filter_map(f));
        match f(links.last()) {
            Some(r) => {
                assert(links.filter_map(f) == init.filter_map(f) + seq![r]);
                assert(record_edges(init.filter_map(f) + seq![r]) =~= record_edges(
                    init.filter_map(f),
                ).push(r.0));
            },
            None => {
                assert(links.filter_map(f) == init.filter_map(f));
            },
        }
    }
}

/// The edges of the records of parsed files are the resolved edges of
/// their notes.
proof fn lemma_pairs_from_edges(all: Seq<NoteV>, parsed: Seq<(NoteV, Seq<char>)>)
    ensures
        record_edges(pairs_from(all, parsed)) == resolved_edges(all, parsed_notes(parsed)),
    decreases parsed.len(),
{
    if parsed.len() > 0 {
        let init = parsed.drop_last();
        lemma_pairs_from_edges(all, init);
        let (n, body) = parsed.last();
        lemma_link_pairs_edges(all, n.path, n.title, body, n.outgoing_links);
        assert(parsed_notes(parsed).drop_last() =~= parsed_notes(init));
        assert(parsed_notes(parsed).last() == n);
        let a = pairs_from(all, init);
        let b = link_pairs(all, n.path, n.title, body, n.outgoing_links);
        assert(record_edges(a + b) =~= record_edges(a) + record_edges(b));
    }
}

/// The notes of parsed files with distinct paths are the parsed notes, in
/// order.
proof fn lemma_notes_from_distinct(parsed: Seq<(NoteV, Seq<char>)>)
    requires
        forall|a: int, b: int|
            0 <= a < b < parsed.len() ==> #[trigger] parsed[a].0.path != #[trigger] parsed[b].0.path,
    ensures
        notes_from(parsed) == parsed_notes(parsed),
    decreases parsed.len(),
{
    if parsed.len() > 0 {
        let init = parsed.drop_last();
        assert forall|a: int, b: int| 0 <= a < b < init.len() implies #[trigger] init[a].0.path
            != #[trigger] init[b].0.path by {
            assert(init[a] == parsed[a] && init[b] == parsed[b]);
        }
        lemma_notes_from_distinct(init);
        let n = parsed.last().0;
        let notes0 = notes_from(init);
        lemma_note_pos(notes0, n.path);
        if note_pos(notes0, n.path) is Some {
            let i = note_pos(notes0, n.path)->0;
            assert(notes0[i] == init[i].0);
            assert(parsed[i].0.path != parsed[parsed.len() - 1].0.path);
        }
        assert(parsed_notes(parsed) =~= parsed_notes(init).push(n));
    }
}

/// After a rebuild from files with distinct paths, the graph edges are
/// exactly the resolved links of the notes: note by note, link by link,
/// each link whose target resolves among the notes giving one edge from
/// the note to that target. (Each edge has its backlink at the same
/// position: `law_rebuild_links`.)
pub proof fn law_rebuild_edges(files: Seq<(Seq<char>, Seq<char>)>)
    requires
        forall|a: int, b: int| 0 <= a < b < files.len() ==> #[trigger] files[a].0 != #[trigger] files[b].0,
    ensures
        rebuilt(files).edges == resolved_edges(rebuilt(files).notes, rebuilt(files).notes),
{
    let parsed = parse_files(files);
    assert forall|a: int, b: int| 0 <= a < b < parsed.len() implies #[trigger] parsed[a].0.path
        != #[trigger] parsed[b].0.path by {
        assert(parsed[a].0.path == files[a].0);
        assert(parsed[b].0.path == files[b].0);
    }
    lemma_notes_from_distinct(parsed);
    lemma_pairs_from_edges(notes_from(parsed), parsed);
}

// ---------------------------------------------------------------------------
// Backlink sources
// ---------------------------------------------------------------------------

/// Every record of a note's links comes from that note: its source path
/// and source title.
proof fn lemma_link_pairs_source(
    all: Seq<NoteV>,
    src: Seq<char>,
    title: Seq<char>,
    body: Seq<char>,
    links: Seq<WikilinkV>,
)
    ensures
        forall|k: int| 0 <= k < link_pairs(all, src, title, body, links).len() ==> {
            &&& (#[trigger] link_pairs(all, src, title, body, links)[k]).1.1.source_path == src
            &&& link_pairs(all, src, title, body, links)[k].1.1.source_title == title
        },
    decreases links.len(),
{
    if links.len() > 0 {
        let init = links.drop_last();
        lemma_link_pairs_source(all, src, title, body, init);
        let f = |l: WikilinkV| link_record(all, src, title, body, l);
        let a = init.filter_map(f);
        assert(link_pairs(all, src, title, body, init) == a);
        assert(link_pairs(all, src, title, body, links) == links.filter_map(f));
        match f(links.last()) {
            Some(r) => {
                assert(links.filter_map(f) == a + seq![r]);
                assert forall|k: int| 0 <= k < (a + seq![r]).len() implies (#[trigger] (a + seq![r])[k]).1.1.source_path
                    == src && (a + seq![r])[k].1.1.source_title == title by {
                    if k < a.len() {
                        assert((a + seq![r])[k] == a[k]);
                    } else {
                        assert((a + seq![r])[k] == r);
                    }
                }
            },
            None => {
                assert(links.filter_map(f) == a);
            },
        }
    }
}

/// Every record built from parsed files comes from one of them: its source
/// path and source title are that file's note's.
proof fn lemma_pairs_from_source(all: Seq<NoteV>, parsed: Seq<(NoteV, Seq<char>)>)
    ensures
        forall|k: int| 0 <= k < pairs_from(all, parsed).len() ==> exists|j: int|
            0 <= j < parsed.len() && (#[trigger] pairs_from(all, parsed)[k]).1.1.source_path
                == parsed[j].0.path && pairs_from(all, parsed)[k].1.1.source_title == parsed[j].0.title,
    decreases parsed.len(),
{
    if parsed.len() > 0 {
        let init = parsed.drop_last();
        lemma_pairs_from_source(all, init);
        let (n, body) = parsed.last();
        lemma_link_pairs_source(all, n.path, n.title, body, n.outgoing_links);
        let a = pairs_from(all, init);
        let b = link_pairs(all, n.path, n.title, body, n.outgoing_links);
        assert(pairs_from(all, parsed) == a + b);
        assert forall|k: int| 0 <= k < (a + b).len() implies exists|j: int|
            0 <= j < parsed.len() && (#[trigger] (a + b)[k]).1.1.source_path == parsed[j].0.path
                && (a + b)[k].1.1.source_title == parsed[j].0.title by {
            if k < a.len() {
                assert((a + b)[k] == a[k]);
                let j = choose|j: int|
                    0 <= j < init.len() && a[k].1.1.source_path == init[j].0.path
                        && a[k].1.1.source_title == init[j].0.title;
                assert(parsed[j] == init[j]);
            } else {
                assert((a + b)[k] == b[k - a.len()]);
                assert(parsed[parsed.len() - 1].0 == n);
            }
        }
    }
}

/// After a rebuild from files with distinct paths, every backlink names
/// the note it comes from: its source path is a note of the index, and its
/// source title is that note's title.
pub proof fn law_backlink_sources(files: Seq<(Seq<char>, Seq<char>)>)
    requires
        forall|a: int, b: int| 0 <= a < b < files.len() ==> #[trigger] files[a].0 != #[trigger] files[b].0,
    ensures
        forall|k: int| 0 <= k < rebuilt(files).backlinks.len() ==> {
            &&& note_get(rebuilt(files).notes, (#[trigger] rebuilt(files).backlinks[k]).1.source_path) is Some
            &&& note_get(rebuilt(files).notes, rebuilt(files).backlinks[k].1.source_path)->0.title
                == rebuilt(files).backlinks[k].1.source_title
        },
{
    let parsed = parse_files(files);
    assert forall|a: int, b: int| 0 <= a < b < parsed.len() implies #[trigger] parsed[a].0.path
        != #[trigger] parsed[b].0.path by {
        assert(parsed[a].0.path == files[a].0);
        assert(parsed[b].0.path == files[b].0);
    }
    lemma_notes_from_distinct(parsed);
    let notes = notes_from(parsed);
    lemma_notes_from_unique(parsed);
    let rs = pairs_from(notes, parsed);
    lemma_pairs_from_source(notes, parsed);
    let bs = rebuilt(files).backlinks;
    assert forall|k: int| 0 <= k < bs.len() implies {
        &&& note_get(notes, (#[trigger] bs[k]).1.source_path) is Some
        &&& note_get(notes, bs[k].1.source_path)->0.title == bs[k].1.source_title
    } by {
        assert(bs[k] == rs[k].1);
        let j = choose|j: int|
            0 <= j < parsed.len() && rs[k].1.1.source_path == parsed[j].0.path
                && rs[k].1.1.source_title == parsed[j].0.title;
        assert(notes[j] == parsed[j].0);
        lemma_note_get_unique(notes, j);
    }
}

} // verus!
