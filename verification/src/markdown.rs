//! Markdown body parsing: wikilinks, inline tags, fenced code blocks,
//! headings and heading slugs.
use vstd::prelude::*;

use crate::text::{
    char_alphanumeric, copy_chars, find_char, first_index, from_chars, is_alphanumeric,
    is_ascii_letter, is_whitespace, is_ws, join, join_with, last_index, lines, lowercase,
    rfind_char, slice, split_char, split_lines, split_on, starts_with, str_lowercase, to_chars,
    trim, trim_start, trimmed, trimmed_start, views,
};

verus! {

// ---------------------------------------------------------------------------
// Wikilinks
// ---------------------------------------------------------------------------

/// A `[[target#heading^block|display]]` link found in a note body.
pub struct Wikilink {
    /// The whole link text, brackets included.
    pub raw: String,
    /// The note the link points at.
    pub target: String,
    /// The part after `#`, if any.
    pub heading: Option<String>,
    /// The part after the last `|`, if any.
    pub display_text: Option<String>,
    /// The part after `^`, if any.
    pub block_id: Option<String>,
}

/// The mathematical value of a [`Wikilink`].
pub struct WikilinkV {
    pub raw: Seq<char>,
    pub target: Seq<char>,
    pub heading: Option<Seq<char>>,
    pub display_text: Option<Seq<char>>,
    pub block_id: Option<Seq<char>>,
}

/// The characters of an optional string.
pub open spec fn opt_view(o: Option<String>) -> Option<Seq<char>> {
    match o {
        Some(s) => Some(s@),
        None => None,
    }
}

impl View for Wikilink {
    type V = WikilinkV;

    open spec fn view(&self) -> WikilinkV {
        WikilinkV {
            raw: self.raw@,
            target: self.target@,
            heading: opt_view(self.heading),
            display_text: opt_view(self.display_text),
            block_id: opt_view(self.block_id),
        }
    }
}

/// The values of a vector of links.
pub open spec fn link_views(v: Seq<Wikilink>) -> Seq<WikilinkV> {
    v.map_values(|l: Wikilink| l@)
}

/// If a link starts at `i` (`[[`, at least one character that is not `]`,
/// then `]]`), the position just after it.
pub open spec fn link_end(s: Seq<char>, i: int) -> Option<int> {
    if 0 <= i && i + 1 < s.len() && s[i] == '[' && s[i + 1] == '[' {
        match first_index(s.subrange(i + 2, s.len() as int), ']') {
            Some(q) => if q > 0 && i + 2 + q + 1 < s.len() && s[i + 2 + q + 1] == ']' {
                Some(i + 2 + q + 2)
            } else {
                None
            },
            None => None,
        }
    } else {
        None
    }
}

/// Splits an optional part off at `pos`: what stands before (trimmed when
/// split) and the trimmed part after.
pub open spec fn split_part(s: Seq<char>, pos: Option<int>) -> (Seq<char>, Option<Seq<char>>) {
    match pos {
        Some(p) => (trimmed(s.subrange(0, p)), Some(trimmed(s.subrange(p + 1, s.len() as int)))),
        None => (s, None),
    }
}

/// The link written as `raw`, whose text between the brackets is `inner`:
/// the display text follows the last `|`, the block id the first `^` and the
/// heading the first `#`; a link with an empty target is dropped.
pub open spec fn link_of(raw: Seq<char>, inner: Seq<char>) -> Option<WikilinkV> {
    let (main, display) = split_part(inner, last_index(inner, '|'));
    let (main2, block) = split_part(main, first_index(main, '^'));
    let (target, heading) = match first_index(main2, '#') {
        Some(h) => (trimmed(main2.subrange(0, h)), Some(trimmed(main2.subrange(h + 1, main2.len() as int)))),
        None => (trimmed(main2), None),
    };
    if target.len() == 0 {
        None
    } else {
        Some(WikilinkV { raw, target, heading, display_text: display, block_id: block })
    }
}

/// The links of `s` from position `i` on, leftmost first, not overlapping.
pub open spec fn links_from(s: Seq<char>, i: int) -> Seq<WikilinkV>
    decreases s.len() - i,
{
    if i < 0 || i >= s.len() {
        seq![]
    } else {
        match link_end(s, i) {
            Some(e) => match link_of(s.subrange(i, e), s.subrange(i + 2, e - 2)) {
                Some(l) => seq![l] + links_from(s, e),
                None => links_from(s, e),
            },
            None => links_from(s, i + 1),
        }
    }
}

/// The end of the link starting at `i`, if one does.
fn find_link_end(s: &Vec<char>, i: usize) -> (r: Option<usize>)
    requires
        i < s.len(),
    ensures
        match r {
            Some(e) => link_end(s@, i as int) == Some(e as int),
            None => link_end(s@, i as int) is None,
        },
{
    if i + 1 < s.len() && s[i] == '[' && s[i + 1] == '[' {
        let rest = slice(s, i + 2, s.len());
        proof {
            crate::text::lemma_first_index(rest@, ']');
        }
        match find_char(&rest, ']') {
            Some(q) => {
                if q > 0 && i + 2 + q + 1 < s.len() && s[i + 2 + q + 1] == ']' {
                    Some(i + 2 + q + 2)
                } else {
                    None
                }
            },
            None => None,
        }
    } else {
        None
    }
}

/// Splits `s` at an optional position, trimming both sides when split.
fn split_at_part(s: &Vec<char>, pos: Option<usize>) -> (r: (Vec<char>, Option<Vec<char>>))
    requires
        pos matches Some(p) ==> p < s.len(),
    ensures
        (r.0@, opt_chars(r.1)) == split_part(s@, opt_int(pos)),
{
    match pos {
        Some(p) => {
            let before = slice(s, 0, p);
            let after = slice(s, p + 1, s.len());
            (trim(&before), Some(trim(&after)))
        },
        None => (copy_chars(s), None),
    }
}

/// An optional index as an integer.
pub open spec fn opt_int(o: Option<usize>) -> Option<int> {
    match o {
        Some(i) => Some(i as int),
        None => None,
    }
}

/// The characters of an optional character vector.
pub open spec fn opt_chars(o: Option<Vec<char>>) -> Option<Seq<char>> {
    match o {
        Some(v) => Some(v@),
        None => None,
    }
}

/// An optional `String` holding the given optional characters.
fn opt_string(o: Option<Vec<char>>) -> (r: Option<String>)
    ensures
        opt_view(r) == opt_chars(o),
{
    match o {
        Some(v) => Some(from_chars(&v)),
        None => None,
    }
}

/// The link written as `s[i..e]`, if its target is not empty.
fn make_link(s: &Vec<char>, i: usize, e: usize) -> (r: Option<Wikilink>)
    requires
        i + 4 <= e <= s.len(),
    ensures
        match r {
            Some(l) => link_of(s@.subrange(i as int, e as int), s@.subrange(i + 2, e - 2)) == Some(
                l@,
            ),
            None => link_of(s@.subrange(i as int, e as int), s@.subrange(i + 2, e - 2)) is None,
        },
{
    let raw = slice(s, i, e);
    let inner = slice(s, i + 2, e - 2);
    let pipe = rfind_char(&inner, '|');
    proof {
        crate::text::lemma_last_index(inner@, '|');
    }
    let (main, display) = split_at_part(&inner, pipe);
    let caret = find_char(&main, '^');
    proof {
        crate::text::lemma_first_index(main@, '^');
    }
    let (main2, block) = split_at_part(&main, caret);
    let hash = find_char(&main2, '#');
    proof {
        crate::text::lemma_first_index(main2@, '#');
    }
    let (target, heading) = match hash {
        Some(h) => {
            let before = slice(&main2, 0, h);
            let after = slice(&main2, h + 1, main2.len());
            (trim(&before), Some(trim(&after)))
        },
        None => (trim(&main2), None),
    };
    if target.len() == 0 {
        None
    } else {
        Some(
            Wikilink {
                raw: from_chars(&raw),
                target: from_chars(&target),
                heading: opt_string(heading),
                display_text: opt_string(display),
                block_id: opt_string(block),
            },
        )
    }
}

/// The wikilinks of a body, in order of appearance.
pub fn wikilinks_in(s: &Vec<char>) -> (r: Vec<Wikilink>)
    ensures
        link_views(r@) == links_from(s@, 0),
{
    let mut r: Vec<Wikilink> = Vec::new();
    let mut i: usize = 0;
    while i < s.len()
        invariant
            i <= s.len(),
            link_views(r@) + links_from(s@, i as int) == links_from(s@, 0),
        decreases s.len() - i,
    {
        let ghost before = link_views(r@);
        match find_link_end(s, i) {
            Some(e) => {
                match make_link(s, i, e) {
                    Some(l) => {
                        r.push(l);
                        assert(link_views(r@) =~= before.push(l@));
                        assert(before.push(l@) + links_from(s@, e as int) =~= before + (seq![l@]
                            + links_from(s@, e as int)));
                    },
                    None => {},
                }
                i = e;
            },
            None => {
                i += 1;
            },
        }
    }
    assert(links_from(s@, i as int) =~= Seq::<WikilinkV>::empty());
    assert(link_views(r@) =~= links_from(s@, 0));
    r
}

/// Extracts wikilinks from body text.
///
/// Supports `[[Note]]`, `[[Note#Heading]]`, `[[Note^block]]`,
/// `[[Note|Display]]` and combinations `[[Note#H^b|D]]`.
pub fn parse_wikilinks(body: &str) -> (r: Vec<Wikilink>)
    ensures
        link_views(r@) == links_from(body@, 0),
{
    let s = to_chars(body);
    wikilinks_in(&s)
}

// ---------------------------------------------------------------------------
// Fenced code blocks
// ---------------------------------------------------------------------------

/// The fence that opens and closes a code block.
pub open spec fn fence() -> Seq<char> {
    seq!['`', '`', '`']
}

/// Walks the lines, keeping those outside fenced blocks: a line whose
/// text (after leading whitespace) starts with the fence toggles the block
/// and is dropped. Returns the kept lines and whether a block is open.
pub open spec fn code_scan(ls: Seq<Seq<char>>) -> (Seq<Seq<char>>, bool)
    decreases ls.len(),
{
    if ls.len() == 0 {
        (seq![], false)
    } else {
        let (kept, in_block) = code_scan(ls.drop_last());
        let l = ls.last();
        if starts_with(trimmed_start(l), fence()) {
            (kept, !in_block)
        } else if !in_block {
            (kept.push(l), in_block)
        } else {
            (kept, in_block)
        }
    }
}

/// The text with fenced code blocks (fences included) removed, lines
/// joined with `'\n'`.
pub open spec fn without_code(t: Seq<char>) -> Seq<char> {
    join(code_scan(lines(t)).0, seq!['\n'])
}

/// The fence as characters.
fn fence_chars() -> (r: Vec<char>)
    ensures
        r@ == fence(),
{
    let mut r: Vec<char> = Vec::new();
    r.push('`');
    r.push('`');
    r.push('`');
    assert(r@ =~= fence());
    r
}

/// Removes fenced code blocks from text.
pub fn strip_code_blocks(t: &Vec<char>) -> (r: Vec<char>)
    ensures
        r@ == without_code(t@),
{
    let ls = split_lines(t);
    let f = fence_chars();
    let mut kept: Vec<Vec<char>> = Vec::new();
    let mut in_block = false;
    let mut k: usize = 0;
    assert(views(ls@).take(0) =~= Seq::<Seq<char>>::empty());
    while k < ls.len()
        invariant
            k <= ls.len(),
            views(ls@) == lines(t@),
            f@ == fence(),
            (views(kept@), in_block) == code_scan(views(ls@).take(k as int)),
        decreases ls.len() - k,
    {
        let line = &ls[k];
        assert(views(ls@)[k as int] == line@);
        assert(views(ls@).take(k + 1).drop_last() =~= views(ls@).take(k as int));
        let ts = trim_start(line);
        if crate::text::has_prefix(&ts, &f) {
            in_block = !in_block;
        } else if !in_block {
            let ghost before = views(kept@);
            kept.push(copy_chars(line));
            assert(views(kept@) =~= before.push(line@));
        }
        k += 1;
    }
    assert(views(ls@).take(ls.len() as int) =~= views(ls@));
    join_with(&kept, '\n')
}

// ---------------------------------------------------------------------------
// Inline tags
// ---------------------------------------------------------------------------

/// A word character (`\w`): alphanumeric or `_`.
pub open spec fn is_word(c: char) -> bool {
    char_alphanumeric(c) || c == '_'
}

/// A character allowed in a tag after its first letter.
pub open spec fn is_tag_char(c: char) -> bool {
    is_word(c) || c == '/' || c == '-'
}

/// A tag starts at `i`: `#` not preceded by a word character and followed
/// by an ASCII letter.
pub open spec fn tag_starts_at(t: Seq<char>, i: int) -> bool {
    &&& 0 <= i
    &&& i + 1 < t.len()
    &&& t[i] == '#'
    &&& (i == 0 || !is_word(t[i - 1]))
    &&& is_ascii_letter(t[i + 1])
}

/// The end of the run of tag characters that starts at `j`.
pub open spec fn tag_run_end(t: Seq<char>, j: int) -> int
    decreases t.len() - j,
{
    if 0 <= j < t.len() && is_tag_char(t[j]) {
        tag_run_end(t, j + 1)
    } else {
        j
    }
}

/// The tags (without `#`) found at positions `i` and after, in order.
pub open spec fn tags_from(t: Seq<char>, i: int) -> Seq<Seq<char>>
    decreases t.len() - i,
{
    if i < 0 || i >= t.len() {
        seq![]
    } else if tag_starts_at(t, i) {
        seq![t.subrange(i + 1, tag_run_end(t, i + 1))] + tags_from(t, i + 1)
    } else {
        tags_from(t, i + 1)
    }
}

/// The inline tags of a body: those outside fenced code blocks.
pub open spec fn inline_tags(body: Seq<char>) -> Seq<Seq<char>> {
    tags_from(without_code(body), 0)
}

/// Whether `c` is a word character.
fn word_char(c: char) -> (r: bool)
    ensures
        r == is_word(c),
{
    c == '_' || is_alphanumeric(c)
}

/// The end of the run of tag characters from `j`.
fn run_end(t: &Vec<char>, j: usize) -> (r: usize)
    requires
        j <= t.len(),
    ensures
        r == tag_run_end(t@, j as int),
        j <= r <= t.len(),
{
    let mut k = j;
    while k < t.len() && (word_char(t[k]) || t[k] == '/' || t[k] == '-')
        invariant
            j <= k <= t.len(),
            tag_run_end(t@, j as int) == tag_run_end(t@, k as int),
        decreases t.len() - k,
    {
        k += 1;
    }
    k
}

/// The inline tags of text with code already removed.
fn tags_in(t: &Vec<char>) -> (r: Vec<Vec<char>>)
    ensures
        views(r@) == tags_from(t@, 0),
{
    let mut r: Vec<Vec<char>> = Vec::new();
    let mut i: usize = 0;
    while i < t.len()
        invariant
            i <= t.len(),
            views(r@) + tags_from(t@, i as int) == tags_from(t@, 0),
        decreases t.len() - i,
    {
        let starts = i + 1 < t.len() && t[i] == '#' && (i == 0 || !word_char(t[i - 1])) && (
        ('a' <= t[i + 1] && t[i + 1] <= 'z') || ('A' <= t[i + 1] && t[i + 1] <= 'Z'));
        if starts {
            let e = run_end(t, i + 1);
            let tag = slice(t, i + 1, e);
            let ghost before = views(r@);
            r.push(tag);
            assert(views(r@) =~= before.push(tag@));
            assert(before.push(tag@) + tags_from(t@, i + 1) =~= before + (seq![tag@] + tags_from(
                t@,
                i + 1,
            )));
        }
        i += 1;
    }
    assert(tags_from(t@, i as int) =~= Seq::<Seq<char>>::empty());
    assert(views(r@) =~= tags_from(t@, 0));
    r
}

/// Extracts inline `#tag`s from a body, skipping fenced code blocks.
pub fn inline_tags_in(body: &Vec<char>) -> (r: Vec<Vec<char>>)
    ensures
        views(r@) == inline_tags(body@),
{
    let t = strip_code_blocks(body);
    tags_in(&t)
}

// ---------------------------------------------------------------------------
// Headings and slugs
// ---------------------------------------------------------------------------

/// A Markdown heading.
pub struct Heading {
    /// Number of `#` characters (1 to 6).
    pub level: u8,
    /// The heading text, trimmed.
    pub text: String,
    /// URL-friendly form of the text.
    pub slug: String,
}

/// The mathematical value of a [`Heading`].
pub struct HeadingV {
    pub level: u8,
    pub text: Seq<char>,
    pub slug: Seq<char>,
}

impl View for Heading {
    type V = HeadingV;

    open spec fn view(&self) -> HeadingV {
        HeadingV { level: self.level, text: self.text@, slug: self.slug@ }
    }
}

/// The values of a vector of headings.
pub open spec fn heading_views(v: Seq<Heading>) -> Seq<HeadingV> {
    v.map_values(|h: Heading| h@)
}

/// The number of `#` characters that start `l`.
pub open spec fn hashes(l: Seq<char>) -> int
    decreases l.len(),
{
    if l.len() > 0 && l[0] == '#' {
        1 + hashes(l.drop_first())
    } else {
        0
    }
}

/// What a character of the lower-cased text becomes in a slug:
/// alphanumerics stay, whitespace becomes `-`, the rest is dropped.
pub open spec fn slug_char(c: char) -> Option<char> {
    if char_alphanumeric(c) && c != '\0' {
        Some(c)
    } else if is_ws(c) {
        Some('-')
    } else {
        None
    }
}

/// The slug of a heading text: lower-cased, alphanumerics kept, whitespace
/// turned into `-`, other characters dropped, runs of `-` collapsed and no
/// `-` at either end.
pub open spec fn slug(text: Seq<char>) -> Seq<char> {
    join(
        split_on(str_lowercase(text).filter_map(|c: char| slug_char(c)), '-').filter(
            |p: Seq<char>| p.len() > 0,
        ),
        seq!['-'],
    )
}

/// The heading that a line is, if any: one to six `#`, whitespace, then at
/// least one more character; the text is the trimmed rest of the line.
pub open spec fn heading_of(l: Seq<char>) -> Option<HeadingV> {
    let k = hashes(l);
    if 1 <= k <= 6 && l.len() >= k + 2 && is_ws(l[k]) {
        let text = trimmed(l.subrange(k, l.len() as int));
        Some(HeadingV { level: k as u8, text, slug: slug(text) })
    } else {
        None
    }
}

/// The headings of a body, one per heading line, in order.
pub open spec fn headings(body: Seq<char>) -> Seq<HeadingV> {
    lines(body).filter_map(|l: Seq<char>| heading_of(l))
}

/// The characters of `v` kept by `slug_char`, mapped.
fn slug_chars(v: &Vec<char>) -> (r: Vec<char>)
    ensures
        r@ == v@.filter_map(|c: char| slug_char(c)),
{
    let mut r: Vec<char> = Vec::new();
    let mut i: usize = 0;
    assert(v@.take(0) =~= Seq::<char>::empty());
    while i < v.len()
        invariant
            i <= v.len(),
            r@ == v@.take(i as int).filter_map(|c: char| slug_char(c)),
        decreases v.len() - i,
    {
        let c = v[i];
        assert(v@.take(i + 1).drop_last() =~= v@.take(i as int));
        if is_alphanumeric(c) && c != '\0' {
            r.push(c);
        } else if is_whitespace(c) {
            r.push('-');
        }
        assert(r@ =~= v@.take(i + 1).filter_map(|c: char| slug_char(c)));
        i += 1;
    }
    assert(v@.take(v.len() as int) =~= v@);
    r
}

/// Keeps the non-empty pieces.
fn non_empty(parts: Vec<Vec<char>>) -> (r: Vec<Vec<char>>)
    ensures
        views(r@) == views(parts@).filter(|p: Seq<char>| p.len() > 0),
{
    let mut r: Vec<Vec<char>> = Vec::new();
    let mut i: usize = 0;
    assert(views(parts@).take(0) =~= Seq::<Seq<char>>::empty());
    proof {
        reveal(Seq::filter);
    }
    while i < parts.len()
        invariant
            i <= parts.len(),
            views(r@) == views(parts@).take(i as int).filter(|p: Seq<char>| p.len() > 0),
        decreases parts.len() - i,
    {
        proof {
            reveal(Seq::filter);
        }
        let p = &parts[i];
        assert(views(parts@)[i as int] == p@);
        assert(views(parts@).take(i + 1).drop_last() =~= views(parts@).take(i as int));
        if p.len() > 0 {
            let ghost before = views(r@);
            r.push(copy_chars(p));
            assert(views(r@) =~= before.push(p@));
        }
        i += 1;
    }
    assert(views(parts@).take(parts.len() as int) =~= views(parts@));
    r
}

/// Creates a URL-friendly slug from heading text.
pub fn slugify_chars(text: &Vec<char>) -> (r: Vec<char>)
    ensures
        r@ == slug(text@),
{
    let lower = lowercase(text);
    let kept = slug_chars(&lower);
    let parts = split_char(&kept, '-');
    let parts = non_empty(parts);
    join_with(&parts, '-')
}

/// Creates a URL-friendly slug from heading text.
pub fn slugify(text: &str) -> (r: String)
    ensures
        r@ == slug(text@),
{
    let t = to_chars(text);
    from_chars(&slugify_chars(&t))
}

/// The number of leading `#` characters of `l`.
fn count_hashes(l: &Vec<char>) -> (r: usize)
    ensures
        r == hashes(l@),
        r <= l.len(),
{
    let mut k: usize = 0;
    assert(l@.subrange(0, l@.len() as int) =~= l@);
    while k < l.len() && l[k] == '#'
        invariant
            k <= l.len(),
            hashes(l@) == k + hashes(l@.subrange(k as int, l@.len() as int)),
        decreases l.len() - k,
    {
        assert(l@.subrange(k as int, l@.len() as int).drop_first() =~= l@.subrange(
            k + 1,
            l@.len() as int,
        ));
        k += 1;
    }
    k
}

/// The heading a line is, if any.
fn heading_line(l: &Vec<char>) -> (r: Option<Heading>)
    ensures
        match r {
            Some(h) => heading_of(l@) == Some(h@),
            None => heading_of(l@) is None,
        },
{
    let k = count_hashes(l);
    if 1 <= k && k <= 6 && l.len() >= k + 2 && is_whitespace(l[k]) {
        let rest = slice(l, k, l.len());
        let text = trim(&rest);
        let s = slugify_chars(&text);
        Some(Heading { level: k as u8, text: from_chars(&text), slug: from_chars(&s) })
    } else {
        None
    }
}

/// Extracts Markdown headings from body text.
pub fn headings_in(body: &Vec<char>) -> (r: Vec<Heading>)
    ensures
        heading_views(r@) == headings(body@),
{
    let ls = split_lines(body);
    let mut r: Vec<Heading> = Vec::new();
    let mut k: usize = 0;
    assert(views(ls@).take(0) =~= Seq::<Seq<char>>::empty());
    while k < ls.len()
        invariant
            k <= ls.len(),
            views(ls@) == lines(body@),
            heading_views(r@) == views(ls@).take(k as int).filter_map(
                |l: Seq<char>| heading_of(l),
            ),
        decreases ls.len() - k,
    {
        let line = &ls[k];
        assert(views(ls@)[k as int] == line@);
        assert(views(ls@).take(k + 1).drop_last() =~= views(ls@).take(k as int));
        let ghost before = heading_views(r@);
        match heading_line(line) {
            Some(h) => {
                r.push(h);
                assert(heading_views(r@) =~= before + seq![h@]);
            },
            None => {},
        }
        assert(heading_views(r@) =~= views(ls@).take(k + 1).filter_map(
            |l: Seq<char>| heading_of(l),
        ));
        k += 1;
    }
    assert(views(ls@).take(ls.len() as int) =~= views(ls@));
    r
}

/// Extracts Markdown headings from body text.
pub fn parse_headings(body: &str) -> (r: Vec<Heading>)
    ensures
        heading_views(r@) == headings(body@),
{
    let b = to_chars(body);
    headings_in(&b)
}

/// Extracts inline `#tag`s from a body, skipping fenced code blocks.
pub fn parse_inline_tags(body: &str) -> (r: Vec<String>)
    ensures
        r@.map_values(|s: String| s@) == inline_tags(body@),
{
    let b = to_chars(body);
    let tags = inline_tags_in(&b);
    let mut r: Vec<String> = Vec::new();
    let mut i: usize = 0;
    while i < tags.len()
        invariant
            i <= tags.len(),
            r@.len() == i,
            r@.map_values(|s: String| s@) == views(tags@).take(i as int),
        decreases tags.len() - i,
    {
        assert(views(tags@)[i as int] == tags@[i as int]@);
        let ghost before = r@.map_values(|s: String| s@);
        r.push(from_chars(&tags[i]));
        assert(r@.map_values(|s: String| s@) =~= views(tags@).take(i + 1));
        i += 1;
    }
    assert(views(tags@).take(tags.len() as int) =~= views(tags@));
    r
}

/// A copy of an optional string.
pub fn copy_opt(o: &Option<String>) -> (r: Option<String>)
    ensures
        opt_view(r) == opt_view(*o),
{
    match o {
        Some(s) => Some(s.clone()),
        None => None,
    }
}

/// A copy of a link.
pub fn copy_link(l: &Wikilink) -> (r: Wikilink)
    ensures
        r@ == l@,
{
    Wikilink {
        raw: l.raw.clone(),
        target: l.target.clone(),
        heading: copy_opt(&l.heading),
        display_text: copy_opt(&l.display_text),
        block_id: copy_opt(&l.block_id),
    }
}

/// A copy of a vector of links.
pub fn copy_links(v: &Vec<Wikilink>) -> (r: Vec<Wikilink>)
    ensures
        link_views(r@) == link_views(v@),
{
    let mut r: Vec<Wikilink> = Vec::new();
    let mut i: usize = 0;
    while i < v.len()
        invariant
            i <= v.len(),
            r@.len() == i,
            link_views(r@) == link_views(v@).take(i as int),
        decreases v.len() - i,
    {
        r.push(copy_link(&v[i]));
        assert(link_views(r@) =~= link_views(v@).take(i + 1));
        i += 1;
    }
    assert(link_views(v@).take(v.len() as int) =~= link_views(v@));
    r
}

/// A copy of a vector of headings.
pub fn copy_headings(v: &Vec<Heading>) -> (r: Vec<Heading>)
    ensures
        heading_views(r@) == heading_views(v@),
{
    let mut r: Vec<Heading> = Vec::new();
    let mut i: usize = 0;
    while i < v.len()
        invariant
            i <= v.len(),
            r@.len() == i,
            heading_views(r@) == heading_views(v@).take(i as int),
        decreases v.len() - i,
    {
        let h = &v[i];
        r.push(Heading { level: h.level, text: h.text.clone(), slug: h.slug.clone() });
        assert(heading_views(r@) =~= heading_views(v@).take(i + 1));
        i += 1;
    }
    assert(heading_views(v@).take(v.len() as int) =~= heading_views(v@));
    r
}

// ---------------------------------------------------------------------------
// Slugs
// ---------------------------------------------------------------------------

/// `s` neither starts nor ends with `-` and has no two `-` in a row.
pub open spec fn well_dashed(s: Seq<char>) -> bool {
    s.len() == 0 || {
        &&& s[0] != '-'
        &&& s.last() != '-'
        &&& forall|i: int| 0 <= i < s.len() - 1 ==> !(#[trigger] s[i] == '-' && s[i + 1] == '-')
    }
}

/// Joining non-empty pieces free of `-` with `-` is well dashed, and not
/// empty when there is a piece.
proof fn lemma_join_dashed(ps: Seq<Seq<char>>)
    requires
        forall|i: int| 0 <= i < ps.len() ==> (#[trigger] ps[i]).len() > 0 && !ps[i].contains('-'),
    ensures
        well_dashed(join(ps, seq!['-'])),
        ps.len() > 0 ==> join(ps, seq!['-']).len() > 0,
    decreases ps.len(),
{
    if ps.len() == 1 {
        let p = ps[0];
        assert(join(ps, seq!['-']) == p);
        assert(p[0] != '-') by {
            if p[0] == '-' {
                assert(p.contains('-'));
            }
        }
        assert(p.last() != '-') by {
            if p.last() == '-' {
                assert(p[p.len() - 1] == '-');
            }
        }
        assert forall|i: int| 0 <= i < p.len() - 1 implies !(#[trigger] p[i] == '-' && p[i + 1] == '-') by {
            if p[i] == '-' {
                assert(p.contains('-'));
            }
        }
    } else if ps.len() > 1 {
        let init = ps.drop_last();
        assert forall|i: int| 0 <= i < init.len() implies (#[trigger] init[i]).len() > 0 && !init[i].contains('-') by {
            assert(init[i] == ps[i]);
        }
        lemma_join_dashed(init);
        let j = join(init, seq!['-']);
        let l = ps.last();
        assert(l == ps[ps.len() - 1]);
        let r = join(ps, seq!['-']);
        assert(r == j + seq!['-'] + l);
        let n = j.len() as int;
        assert(r.len() == n + 1 + l.len());
        assert(r[0] == j[0]);
        assert(r[n] == '-');
        assert(r.last() == l.last());
        assert(l.last() != '-') by {
            if l.last() == '-' {
                assert(l[l.len() - 1] == '-');
            }
        }
        assert(l[0] != '-') by {
            if l[0] == '-' {
                assert(l.contains('-'));
            }
        }
        assert forall|i: int| 0 <= i < r.len() - 1 implies !(#[trigger] r[i] == '-' && r[i + 1] == '-') by {
            if i < n - 1 {
                assert(r[i] == j[i] && r[i + 1] == j[i + 1]);
            } else if i == n - 1 {
                assert(r[i] == j.last());
            } else if i == n {
                assert(r[i + 1] == l[0]);
            } else {
                assert(r[i] == l[i - n - 1]);
                if l[i - n - 1] == '-' {
                    assert(l.contains('-'));
                }
            }
        }
    }
}

/// A slug neither starts nor ends with `-` and never has two `-` in a row.
pub proof fn law_slug_dashes(text: Seq<char>)
    ensures
        well_dashed(slug(text)),
{
    broadcast use vstd::seq_lib::group_filter_ensures;

    let m = str_lowercase(text).filter_map(|c: char| slug_char(c));
    let pieces = split_on(m, '-');
    let kept = pieces.filter(|p: Seq<char>| p.len() > 0);
    crate::text::lemma_split_pieces_free(m, '-');
    assert forall|i: int| 0 <= i < kept.len() implies (#[trigger] kept[i]).len() > 0 && !kept[i].contains('-') by {
        assert(kept.contains(kept[i]));
        pieces.lemma_filter_contains_rev(|p: Seq<char>| p.len() > 0, kept[i]);
        let k = choose|k: int| 0 <= k < pieces.len() && pieces[k] == kept[i];
        assert(!pieces[k].contains('-'));
    }
    lemma_join_dashed(kept);
}

// ---------------------------------------------------------------------------
// Inline tags
// ---------------------------------------------------------------------------

/// A character that continues a tag: a word character (alphanumeric or
/// `_`), `/` or `-`.
pub open spec fn continues_tag(c: char) -> bool {
    char_alphanumeric(c) || c == '_' || c == '/' || c == '-'
}

/// `tag` is the full tag written at `#` position `i` of `t`: the `#` is not
/// preceded by a word character and is followed by an ASCII letter, and
/// the tag consists of characters that continue a tag and runs as far as
/// they go.
pub open spec fn tag_at(t: Seq<char>, i: int, tag: Seq<char>) -> bool {
    let end = i + 1 + tag.len();
    &&& 0 <= i
    &&& i + 1 < t.len()
    &&& end <= t.len()
    &&& t[i] == '#'
    &&& (i == 0 || !(char_alphanumeric(t[i - 1]) || t[i - 1] == '_'))
    &&& is_ascii_letter(t[i + 1])
    &&& t.subrange(i + 1, end) == tag
    &&& forall|k: int| 0 <= k < tag.len() ==> continues_tag(#[trigger] tag[k])
    &&& (end == t.len() || !continues_tag(t[end]))
}

/// The run of tag characters from `j` ends at the first character that does
/// not continue a tag.
proof fn lemma_run_end(t: Seq<char>, j: int)
    requires
        0 <= j <= t.len(),
    ensures
        j <= tag_run_end(t, j) <= t.len(),
        forall|k: int| j <= k < tag_run_end(t, j) ==> continues_tag(#[trigger] t[k]),
        tag_run_end(t, j) == t.len() || !continues_tag(t[tag_run_end(t, j)]),
    decreases t.len() - j,
{
    if j < t.len() && is_tag_char(t[j]) {
        lemma_run_end(t, j + 1);
    }
}

/// `tag` is the full tag at some `#` at or after position `i` of `t`.
pub open spec fn tag_found_from(t: Seq<char>, i: int, tag: Seq<char>) -> bool {
    exists|p: int| i <= p && #[trigger] tag_at(t, p, tag)
}

/// Every tag found from position `i` on is the full tag at some `#` there.
proof fn lemma_tags_from_full(t: Seq<char>, i: int)
    requires
        0 <= i,
    ensures
        forall|k: int|
            0 <= k < tags_from(t, i).len() ==> #[trigger] tag_found_from(t, i, tags_from(t, i)[k]),
    decreases t.len() - i,
{
    if i < t.len() {
        lemma_tags_from_full(t, i + 1);
        let all = tags_from(t, i);
        let rest = tags_from(t, i + 1);
        if tag_starts_at(t, i) {
            lemma_run_end(t, i + 1);
            let tag = t.subrange(i + 1, tag_run_end(t, i + 1));
            assert(tag_at(t, i, tag)) by {
                assert forall|k: int| 0 <= k < tag.len() implies continues_tag(#[trigger] tag[k]) by {
                    assert(tag[k] == t[i + 1 + k]);
                }
            }
            assert(all == seq![tag] + rest);
            assert forall|k: int| 0 <= k < all.len() implies #[trigger] tag_found_from(t, i, all[k]) by {
                if k == 0 {
                    assert(all[0] == tag);
                    assert(tag_at(t, i, all[k]));
                } else {
                    assert(all[k] == rest[k - 1]);
                    assert(tag_found_from(t, i + 1, rest[k - 1]));
                    let p = choose|p: int| i + 1 <= p && #[trigger] tag_at(t, p, rest[k - 1]);
                    assert(tag_at(t, p, all[k]));
                }
            }
        } else {
            assert(all == rest);
            assert forall|k: int| 0 <= k < all.len() implies #[trigger] tag_found_from(t, i, all[k]) by {
                assert(tag_found_from(t, i + 1, rest[k]));
                let p = choose|p: int| i + 1 <= p && #[trigger] tag_at(t, p, rest[k]);
                assert(tag_at(t, p, all[k]));
            }
        }
    }
}

/// Every inline tag of a body is a full tag of the body with its fenced
/// code removed: written after a `#` that follows no word character and
/// precedes an ASCII letter, and taking in every following word character,
/// `/` and `-` (so `#project/alpha` gives `project/alpha`).
pub proof fn law_inline_tags_are_full_runs(body: Seq<char>)
    ensures
        forall|k: int|
            0 <= k < inline_tags(body).len() ==> #[trigger] tag_found_from(without_code(body), 0, inline_tags(body)[k]),
{
    lemma_tags_from_full(without_code(body), 0);
}

} // verus!
