//! The logic of full-text search that lies around the search index: how
//! a note's tags are stored in and read back from the index, which hits a
//! tag filter keeps, how many hits are asked for, how a highlighted
//! excerpt is marked up, and which titles an autocomplete returns.
//!
//! Ranking, tokenising and the index on disk belong to the search index
//! itself; these functions take and give its values as plain strings.
use vstd::prelude::*;

use crate::frontmatter::strs;
use crate::text::{
    from_chars, join, matches_at, split_char, split_on, to_chars, trim, trimmed, views,
};

verus! {

// ---------------------------------------------------------------------------
// SearchError
// ---------------------------------------------------------------------------

/// `tantivy::TantivyError`, carried through unchanged.
#[verifier::external_type_specification]
#[verifier::external_body]
pub struct ExTantivyError(tantivy::TantivyError);

/// The text of a `tantivy::TantivyError` (its `Display`). The contract
/// states nothing of it: the text of many variants comes from the
/// operating system or from paths on disk.
#[verifier::external_body]
fn tantivy_error_text(e: &tantivy::TantivyError) -> String {
    e.to_string()
}

/// An error of a search operation.
pub enum SearchError {
    /// An error of the search index.
    Tantivy(tantivy::TantivyError),
    /// An I/O error.
    Io(std::io::Error),
    /// A schema or query-parsing issue.
    Schema(String),
}

impl SearchError {
    /// The error's message: `tantivy error: {error}`, `I/O error: {error}`
    /// or `schema error: {msg}`.
    pub fn message(&self) -> (r: String)
        ensures
            self matches SearchError::Schema(m) ==> r@ == "schema error: "@ + m@,
            self matches SearchError::Io(_) ==> exists|t: Seq<char>| r@ == "I/O error: "@ + t,
            self matches SearchError::Tantivy(_) ==> exists|t: Seq<char>| r@ == "tantivy error: "@ + t,
    {
        match self {
            SearchError::Tantivy(e) => {
                let t = tantivy_error_text(e);
                let mut r = String::from_str("tantivy error: ");
                r.append(t.as_str());
                r
            },
            SearchError::Io(e) => {
                let t = crate::os_error::io_error_text(e);
                let mut r = String::from_str("I/O error: ");
                r.append(t.as_str());
                r
            },
            SearchError::Schema(m) => {
                let mut r = String::from_str("schema error: ");
                r.append(m.as_str());
                r
            },
        }
    }
}


// ---------------------------------------------------------------------------
// Stored tag lists
// ---------------------------------------------------------------------------

/// The separator between the tags of a note as stored in the index.
pub open spec fn tag_separator() -> Seq<char> {
    seq![',', ' ']
}

/// The stored form of a tag list: the tags joined with `", "`.
pub open spec fn stored_tags(tags: Seq<Seq<char>>) -> Seq<char> {
    join(tags, tag_separator())
}

/// Joins a note's tags for storage in the index (`tags.join(", ")`).
pub fn join_tags(tags: &Vec<String>) -> (r: String)
    ensures
        r@ == stored_tags(strs(tags@)),
{
    let ghost ts = strs(tags@);
    let mut out: Vec<char> = Vec::new();
    let mut k: usize = 0;
    assert(ts.take(0) =~= Seq::<Seq<char>>::empty());
    while k < tags.len()
        invariant
            k <= tags.len(),
            ts == strs(tags@),
            out@ == join(ts.take(k as int), tag_separator()),
        decreases tags.len() - k,
    {
        let piece = to_chars(tags[k].as_str());
        assert(ts[k as int] == piece@);
        if k > 0 {
            out.push(',');
            out.push(' ');
        }
        let ghost mid = out@;
        let mut i: usize = 0;
        while i < piece.len()
            invariant
                i <= piece.len(),
                out@ == mid + piece@.take(i as int),
            decreases piece.len() - i,
        {
            out.push(piece[i]);
            assert(piece@.take(i + 1) =~= piece@.take(i as int).push(piece@[i as int]));
            i += 1;
        }
        assert(piece@.take(piece.len() as int) =~= piece@);
        assert(ts.take(k + 1).drop_last() =~= ts.take(k as int));
        assert(ts.take(k + 1).last() == piece@);
        assert(out@ =~= join(ts.take(k + 1), tag_separator()));
        k += 1;
    }
    assert(ts.take(tags.len() as int) =~= ts);
    from_chars(&out)
}

/// The tags read back from a stored tag list: the pieces between commas,
/// trimmed, empty ones left out.
pub open spec fn tag_list_of(pieces: Seq<Seq<char>>) -> Seq<Seq<char>>
    decreases pieces.len(),
{
    if pieces.len() == 0 {
        seq![]
    } else {
        let prev = tag_list_of(pieces.drop_last());
        let t = trimmed(pieces.last());
        if t.len() > 0 {
            prev.push(t)
        } else {
            prev
        }
    }
}

/// The tags of a stored tag list.
pub open spec fn stored_tag_list(s: Seq<char>) -> Seq<Seq<char>> {
    tag_list_of(split_on(s, ','))
}

/// Reads the tags back from a stored tag list.
pub fn parse_tag_list(stored: &str) -> (r: Vec<String>)
    ensures
        strs(r@) == stored_tag_list(stored@),
{
    let v = to_chars(stored);
    let pieces = split_char(&v, ',');
    let ghost ps = views(pieces@);
    let mut r: Vec<String> = Vec::new();
    let mut k: usize = 0;
    assert(ps.take(0) =~= Seq::<Seq<char>>::empty());
    while k < pieces.len()
        invariant
            k <= pieces.len(),
            ps == views(pieces@),
            strs(r@) == tag_list_of(ps.take(k as int)),
        decreases pieces.len() - k,
    {
        let ghost before = strs(r@);
        assert(ps[k as int] == pieces[k as int]@);
        let t = trim(&pieces[k]);
        assert(ps.take(k + 1).drop_last() =~= ps.take(k as int));
        assert(ps.take(k + 1).last() == ps[k as int]);
        if t.len() > 0 {
            r.push(from_chars(&t));
            assert(strs(r@) =~= before.push(t@));
        }
        k += 1;
    }
    assert(ps.take(pieces.len() as int) =~= ps);
    r
}

/// A stored tag list holds `tag` when one of its comma-separated pieces,
/// trimmed, equals it.
pub open spec fn has_stored_tag(s: Seq<char>, tag: Seq<char>) -> bool {
    exists|i: int| 0 <= i < split_on(s, ',').len() && #[trigger] trimmed(split_on(s, ',')[i]) == tag
}

/// Whether a stored tag list holds `tag` exactly.
pub fn stored_tags_contain(stored: &str, tag: &str) -> (r: bool)
    ensures
        r == has_stored_tag(stored@, tag@),
{
    let v = to_chars(stored);
    let t = to_chars(tag);
    let pieces = split_char(&v, ',');
    let ghost ps = views(pieces@);
    let mut k: usize = 0;
    while k < pieces.len()
        invariant
            k <= pieces.len(),
            ps == views(pieces@),
            ps == split_on(stored@, ','),
            t@ == tag@,
            forall|j: int| 0 <= j < k ==> #[trigger] trimmed(ps[j]) != tag@,
        decreases pieces.len() - k,
    {
        assert(ps[k as int] == pieces[k as int]@);
        let p = trim(&pieces[k]);
        if crate::text::chars_eq(&p, &t) {
            assert(trimmed(ps[k as int]) == tag@);
            return true;
        }
        k += 1;
    }
    false
}

// ---------------------------------------------------------------------------
// Choosing hits
// ---------------------------------------------------------------------------

/// A hit with stored tags `tags` passes the optional tag filter.
pub open spec fn passes_filter(tags: Seq<char>, filter: Option<Seq<char>>) -> bool {
    match filter {
        None => true,
        Some(f) => has_stored_tag(tags, f),
    }
}

/// The positions of the hits that pass the filter, in order.
pub open spec fn passing(hits: Seq<Seq<char>>, filter: Option<Seq<char>>) -> Seq<int>
    decreases hits.len(),
{
    if hits.len() == 0 {
        seq![]
    } else {
        let prev = passing(hits.drop_last(), filter);
        if passes_filter(hits.last(), filter) {
            prev.push(hits.len() - 1)
        } else {
            prev
        }
    }
}

/// The first `n` items of `s`, or all of them when there are fewer.
pub open spec fn at_most<A>(s: Seq<A>, n: nat) -> Seq<A> {
    if s.len() <= n {
        s
    } else {
        s.take(n as int)
    }
}

/// The positions of the hits a search keeps: those that pass the filter,
/// in rank order, up to the limit.
pub open spec fn selected_hits(hits: Seq<Seq<char>>, filter: Option<Seq<char>>, limit: nat) -> Seq<int> {
    at_most(passing(hits, filter), limit)
}

/// The optional filter as characters.
pub open spec fn opt_view(f: Option<&str>) -> Option<Seq<char>> {
    match f {
        None => None,
        Some(s) => Some(s@),
    }
}

/// The hits passing the filter among the first `j` are the first hits
/// passing it among all.
proof fn lemma_passing_prefix(hits: Seq<Seq<char>>, filter: Option<Seq<char>>, j: int)
    requires
        0 <= j <= hits.len(),
    ensures
        passing(hits.take(j), filter).len() <= passing(hits, filter).len(),
        passing(hits, filter).take(passing(hits.take(j), filter).len() as int) == passing(
            hits.take(j),
            filter,
        ),
    decreases hits.len(),
{
    let p = passing(hits, filter);
    if j == hits.len() {
        assert(hits.take(j) =~= hits);
        assert(p.take(p.len() as int) =~= p);
    } else {
        assert(hits.take(j) =~= hits.drop_last().take(j));
        lemma_passing_prefix(hits.drop_last(), filter, j);
        let q = passing(hits.drop_last(), filter);
        let n = passing(hits.take(j), filter).len() as int;
        if passes_filter(hits.last(), filter) {
            assert(p.take(n) =~= q.take(n));
        }
    }
}

/// Chooses which hits a search returns. `hit_tags[i]` is the stored tag
/// list of the hit of rank `i`; the result lists the ranks kept. The limit
/// is positive: the search index refuses to rank for a limit of 0.
pub fn select_hits(hit_tags: &Vec<String>, filter: Option<&str>, limit: usize) -> (r: Vec<usize>)
    requires
        limit > 0,
    ensures
        r@.map_values(|i: usize| i as int) == selected_hits(strs(hit_tags@), opt_view(filter), limit as nat),
        forall|i: int| 0 <= i < r@.len() ==> r@[i] < hit_tags@.len(),
{
    let ghost hs = strs(hit_tags@);
    let ghost f = opt_view(filter);
    let mut r: Vec<usize> = Vec::new();
    let mut k: usize = 0;
    assert(hs.take(0) =~= Seq::<Seq<char>>::empty());
    while k < hit_tags.len()
        invariant
            k <= hit_tags.len(),
            hs == strs(hit_tags@),
            f == opt_view(filter),
            r@.map_values(|i: usize| i as int) == passing(hs.take(k as int), f),
            r@.len() < limit,
            forall|i: int| 0 <= i < r@.len() ==> r@[i] < k,
        decreases hit_tags.len() - k,
    {
        let ghost before = r@.map_values(|i: usize| i as int);
        assert(hs.take(k + 1).drop_last() =~= hs.take(k as int));
        assert(hs.take(k + 1).last() == hit_tags[k as int]@);
        let keep = match filter {
            None => true,
            Some(tag) => stored_tags_contain(hit_tags[k].as_str(), tag),
        };
        if keep {
            r.push(k);
            assert(r@.map_values(|i: usize| i as int) =~= before.push(k as int));
            if r.len() >= limit {
                proof {
                    lemma_passing_prefix(hs, f, k + 1);
                }
                assert(r@.map_values(|i: usize| i as int) =~= selected_hits(hs, f, limit as nat));
                return r;
            }
        }
        k += 1;
    }
    assert(hs.take(hit_tags.len() as int) =~= hs);
    r
}

/// How many hits to ask the index for: twenty times the limit when a
/// tag filter will discard some of them, the limit otherwise.
pub fn fetch_count(limit: usize, filtered: bool) -> (r: usize)
    requires
        filtered ==> limit * 20 <= usize::MAX,
    ensures
        r == (if filtered {
            limit * 20
        } else {
            limit as int
        }),
{
    if filtered {
        limit * 20
    } else {
        limit
    }
}

// ---------------------------------------------------------------------------
// Excerpts
// ---------------------------------------------------------------------------

/// `s` with every occurrence of `p` replaced by `rep`, scanning from the
/// left without overlaps (`str::replace`).
pub open spec fn replaced(s: Seq<char>, p: Seq<char>, rep: Seq<char>) -> Seq<char>
    decreases s.len(),
{
    if s.len() == 0 || p.len() == 0 {
        s
    } else if crate::text::starts_with(s, p) {
        rep + replaced(s.skip(p.len() as int), p, rep)
    } else {
        seq![s[0]] + replaced(s.skip(1), p, rep)
    }
}

/// Replaces every occurrence of the non-empty `p` in `v` by `rep`.
fn replace_all(v: &Vec<char>, p: &Vec<char>, rep: &Vec<char>) -> (r: Vec<char>)
    requires
        p@.len() > 0,
    ensures
        r@ == replaced(v@, p@, rep@),
{
    let mut out: Vec<char> = Vec::new();
    let mut i: usize = 0;
    assert(v@.skip(0) =~= v@);
    while i < v.len()
        invariant
            i <= v.len(),
            p@.len() > 0,
            out@ + replaced(v@.skip(i as int), p@, rep@) == replaced(v@, p@, rep@),
        decreases v.len() - i,
    {
        let ghost rest = v@.skip(i as int);
        if matches_at(v, p, i) {
            assert(rest.subrange(0, p@.len() as int) =~= v@.subrange(i as int, i + p@.len()));
            assert(rest.skip(p@.len() as int) =~= v@.skip(i + p@.len()));
            let ghost mid = out@;
            let mut j: usize = 0;
            while j < rep.len()
                invariant
                    j <= rep.len(),
                    out@ == mid + rep@.take(j as int),
                decreases rep.len() - j,
            {
                out.push(rep[j]);
                assert(rep@.take(j + 1) =~= rep@.take(j as int).push(rep@[j as int]));
                j += 1;
            }
            assert(rep@.take(rep.len() as int) =~= rep@);
            assert(out@ + replaced(v@.skip(i + p@.len()), p@, rep@) =~= mid + replaced(rest, p@, rep@));
            i = i + p.len();
        } else {
            assert(!crate::text::starts_with(rest, p@)) by {
                if p@.len() <= rest.len() {
                    assert(rest.subrange(0, p@.len() as int) =~= v@.subrange(i as int, i + p@.len()));
                }
            }
            assert(rest.skip(1) =~= v@.skip(i + 1));
            let ghost mid = out@;
            out.push(v[i]);
            assert(out@ + replaced(v@.skip(i + 1), p@, rep@) =~= mid + replaced(rest, p@, rep@));
            i = i + 1;
        }
    }
    assert(v@.skip(i as int) =~= Seq::<char>::empty());
    assert(out@ + Seq::<char>::empty() =~= out@);
    out
}

/// An excerpt highlighted with `<b>` tags, re-marked with `<mark>` tags.
pub open spec fn marked_snippet(html: Seq<char>) -> Seq<char> {
    replaced(
        replaced(html, seq!['<', 'b', '>'], seq!['<', 'm', 'a', 'r', 'k', '>']),
        seq!['<', '/', 'b', '>'],
        seq!['<', '/', 'm', 'a', 'r', 'k', '>'],
    )
}

/// Turns the `<b>` highlighting of an excerpt into `<mark>` highlighting.
pub fn mark_snippet(html: &str) -> (r: String)
    ensures
        r@ == marked_snippet(html@),
{
    let v = to_chars(html);
    let open_b = vec!['<', 'b', '>'];
    let open_mark = vec!['<', 'm', 'a', 'r', 'k', '>'];
    let close_b = vec!['<', '/', 'b', '>'];
    let close_mark = vec!['<', '/', 'm', 'a', 'r', 'k', '>'];
    assert(open_b@ =~= seq!['<', 'b', '>']);
    assert(open_mark@ =~= seq!['<', 'm', 'a', 'r', 'k', '>']);
    assert(close_b@ =~= seq!['<', '/', 'b', '>']);
    assert(close_mark@ =~= seq!['<', '/', 'm', 'a', 'r', 'k', '>']);
    let once = replace_all(&v, &open_b, &open_mark);
    let twice = replace_all(&once, &close_b, &close_mark);
    from_chars(&twice)
}

// ---------------------------------------------------------------------------
// Autocomplete
// ---------------------------------------------------------------------------

/// The titles in order, each kept at its first occurrence only.
pub open spec fn first_unique(titles: Seq<Seq<char>>) -> Seq<Seq<char>>
    decreases titles.len(),
{
    if titles.len() == 0 {
        seq![]
    } else {
        let prev = first_unique(titles.drop_last());
        if prev.contains(titles.last()) {
            prev
        } else {
            prev.push(titles.last())
        }
    }
}

/// The titles an autocomplete returns from ranked matches: distinct, in
/// rank order, up to the limit.
pub open spec fn suggested_titles(titles: Seq<Seq<char>>, limit: nat) -> Seq<Seq<char>> {
    at_most(first_unique(titles), limit)
}

/// The distinct titles among the first `j` are the first distinct titles.
proof fn lemma_unique_prefix(titles: Seq<Seq<char>>, j: int)
    requires
        0 <= j <= titles.len(),
    ensures
        first_unique(titles.take(j)).len() <= first_unique(titles).len(),
        first_unique(titles).take(first_unique(titles.take(j)).len() as int) == first_unique(
            titles.take(j),
        ),
    decreases titles.len(),
{
    let u = first_unique(titles);
    if j == titles.len() {
        assert(titles.take(j) =~= titles);
        assert(u.take(u.len() as int) =~= u);
    } else {
        assert(titles.take(j) =~= titles.drop_last().take(j));
        lemma_unique_prefix(titles.drop_last(), j);
        let q = first_unique(titles.drop_last());
        let n = first_unique(titles.take(j)).len() as int;
        if !q.contains(titles.last()) {
            assert(u.take(n) =~= q.take(n));
        }
    }
}

/// Whether `t` is among `seen`.
fn seen_before(seen: &Vec<String>, t: &String) -> (r: bool)
    ensures
        r == strs(seen@).contains(t@),
{
    let mut k: usize = 0;
    while k < seen.len()
        invariant
            k <= seen.len(),
            forall|j: int| 0 <= j < k ==> strs(seen@)[j] != t@,
        decreases seen.len() - k,
    {
        if seen[k] == *t {
            assert(strs(seen@)[k as int] == t@);
            return true;
        }
        k += 1;
    }
    false
}

/// Chooses the titles an autocomplete returns from the titles of its
/// ranked matches. The limit is positive: the search index refuses to rank
/// for a limit of 0.
pub fn unique_titles(titles: &Vec<String>, limit: usize) -> (r: Vec<String>)
    requires
        limit > 0,
    ensures
        strs(r@) == suggested_titles(strs(titles@), limit as nat),
{
    let ghost ts = strs(titles@);
    let mut r: Vec<String> = Vec::new();
    let mut k: usize = 0;
    assert(ts.take(0) =~= Seq::<Seq<char>>::empty());
    while k < titles.len()
        invariant
            k <= titles.len(),
            ts == strs(titles@),
            strs(r@) == first_unique(ts.take(k as int)),
            r@.len() < limit,
        decreases titles.len() - k,
    {
        let ghost before = strs(r@);
        assert(ts.take(k + 1).drop_last() =~= ts.take(k as int));
        assert(ts.take(k + 1).last() == titles[k as int]@);
        if !seen_before(&r, &titles[k]) {
            r.push(titles[k].clone());
            assert(strs(r@) =~= before.push(ts[k as int]));
            if r.len() >= limit {
                proof {
                    lemma_unique_prefix(ts, k + 1);
                }
                assert(strs(r@) =~= suggested_titles(ts, limit as nat));
                return r;
            }
        }
        k += 1;
    }
    assert(ts.take(titles.len() as int) =~= ts);
    r
}

// ---------------------------------------------------------------------------
// Laws
// ---------------------------------------------------------------------------

/// The pieces of a stored tag list: the first tag, then each later tag
/// after the space of the separator.
pub open spec fn stored_pieces(tags: Seq<Seq<char>>) -> Seq<Seq<char>> {
    Seq::new(tags.len(), |i: int| if i == 0 { tags[0] } else { seq![' '] + tags[i] })
}

/// Splitting a stored tag list at commas gives its pieces, when no tag
/// holds a comma.
proof fn lemma_split_stored(tags: Seq<Seq<char>>)
    requires
        tags.len() > 0,
        forall|i: int| 0 <= i < tags.len() ==> !(#[trigger] tags[i]).contains(','),
    ensures
        split_on(stored_tags(tags), ',') == stored_pieces(tags),
    decreases tags.len(),
{
    if tags.len() == 1 {
        crate::text::lemma_split_extend(Seq::<char>::empty(), tags[0], ',');
        assert(Seq::<char>::empty() + tags[0] =~= tags[0]);
        assert(split_on(Seq::<char>::empty(), ',') =~= seq![Seq::<char>::empty()]);
        assert(Seq::<char>::empty() + tags[0] =~= tags[0]);
        assert(split_on(stored_tags(tags), ',') =~= stored_pieces(tags));
    } else {
        let init = tags.drop_last();
        assert forall|i: int| 0 <= i < init.len() implies !(#[trigger] init[i]).contains(',') by {
            assert(init[i] == tags[i]);
        }
        lemma_split_stored(init);
        let j = stored_tags(init);
        let last = tags.last();
        assert(!last.contains(',')) by {
            assert(tags[tags.len() - 1] == last);
        }
        assert(!(seq![' '] + last).contains(',')) by {
            if (seq![' '] + last).contains(',') {
                let i = choose|i: int| 0 <= i < (seq![' '] + last).len() && (seq![' '] + last)[i] == ',';
                assert(i > 0);
                assert(last[i - 1] == ',');
            }
        }
        assert(stored_tags(tags) =~= (j + seq![',']) + (seq![' '] + last));
        crate::text::lemma_split_extend(j + seq![','], seq![' '] + last, ',');
        assert((j + seq![',']).drop_last() =~= j);
        crate::text::lemma_split_on_nonempty(j, ',');
        let p = split_on(j, ',');
        assert(split_on(j + seq![','], ',') == p.push(Seq::<char>::empty()));
        assert(Seq::<char>::empty() + (seq![' '] + last) =~= seq![' '] + last);
        assert(split_on(stored_tags(tags), ',') =~= stored_pieces(tags));
    }
}

/// A leading space goes when the start is trimmed.
proof fn lemma_trim_space(t: Seq<char>)
    ensures
        trimmed(seq![' '] + t) == trimmed(t),
{
    let s = seq![' '] + t;
    assert(crate::text::is_ws(' '));
    assert(s.drop_first() =~= t);
}

/// Reading back pieces whose trimmed forms are the tags, none empty, gives
/// the tags.
proof fn lemma_tag_list_of(pieces: Seq<Seq<char>>, tags: Seq<Seq<char>>)
    requires
        pieces.len() == tags.len(),
        forall|i: int| 0 <= i < tags.len() ==> trimmed(#[trigger] pieces[i]) == tags[i],
        forall|i: int| 0 <= i < tags.len() ==> (#[trigger] tags[i]).len() > 0,
    ensures
        tag_list_of(pieces) == tags,
    decreases pieces.len(),
{
    if pieces.len() > 0 {
        let n = pieces.len() - 1;
        assert forall|i: int| 0 <= i < n implies trimmed(#[trigger] pieces.drop_last()[i])
            == tags.drop_last()[i] by {
            assert(pieces.drop_last()[i] == pieces[i]);
        }
        assert forall|i: int| 0 <= i < n implies (#[trigger] tags.drop_last()[i]).len() > 0 by {
            assert(tags.drop_last()[i] == tags[i]);
        }
        lemma_tag_list_of(pieces.drop_last(), tags.drop_last());
        assert(trimmed(pieces.last()) == tags[n]);
        assert(tags.drop_last().push(tags.last()) =~= tags);
    }
}

/// A tag list stored in the search index reads back as the same list, when
/// every tag is non-empty, free of surrounding whitespace and free of
/// commas.
pub proof fn law_stored_tags_roundtrip(tags: Seq<Seq<char>>)
    requires
        forall|i: int| 0 <= i < tags.len() ==> (#[trigger] tags[i]).len() > 0,
        forall|i: int| 0 <= i < tags.len() ==> trimmed(#[trigger] tags[i]) == tags[i],
        forall|i: int| 0 <= i < tags.len() ==> !(#[trigger] tags[i]).contains(','),
    ensures
        stored_tag_list(stored_tags(tags)) == tags,
{
    if tags.len() == 0 {
        assert(stored_tags(tags) == Seq::<char>::empty());
        assert(split_on(Seq::<char>::empty(), ',') =~= seq![Seq::<char>::empty()]);
        assert(trimmed(Seq::<char>::empty()) =~= Seq::<char>::empty());
        assert(seq![Seq::<char>::empty()].drop_last() =~= Seq::<Seq<char>>::empty());
        let one = seq![Seq::<char>::empty()];
        assert(one.last() == Seq::<char>::empty());
        assert(tag_list_of(one.drop_last()) =~= Seq::<Seq<char>>::empty());
        assert(tag_list_of(one) =~= Seq::<Seq<char>>::empty());
        assert(tags =~= Seq::<Seq<char>>::empty());
    } else {
        lemma_split_stored(tags);
        let pieces = stored_pieces(tags);
        assert forall|i: int| 0 <= i < tags.len() implies trimmed(#[trigger] pieces[i]) == tags[i] by {
            if i > 0 {
                lemma_trim_space(tags[i]);
            }
        }
        lemma_tag_list_of(pieces, tags);
    }
}

} // verus!
