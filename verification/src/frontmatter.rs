//! YAML-style frontmatter: splitting it off a note and reading its
//! `key: value` lines (inline `[a, b]` arrays, `- item` lists, quoted
//! strings).
use vstd::prelude::*;

use crate::text::{
    chars_eq, copy_chars, find_char, first_index, from_chars, join, join_with, lowercase, slice,
    split_char, split_on, starts_with, str_lowercase, to_chars, trim, trim_end_char, trimmed,
    trimmed_end_char, views,
};

verus! {

/// A value of the frontmatter: a string or a list of strings.
pub enum FrontmatterValue {
    Text(String),
    List(Vec<String>),
}

/// The mathematical value of a [`FrontmatterValue`].
pub enum FrontmatterValueV {
    Text(Seq<char>),
    List(Seq<Seq<char>>),
}

/// The character sequences of a vector of strings.
pub open spec fn strs(v: Seq<String>) -> Seq<Seq<char>> {
    v.map_values(|s: String| s@)
}

impl View for FrontmatterValue {
    type V = FrontmatterValueV;

    open spec fn view(&self) -> FrontmatterValueV {
        match self {
            FrontmatterValue::Text(s) => FrontmatterValueV::Text(s@),
            FrontmatterValue::List(v) => FrontmatterValueV::List(strs(v@)),
        }
    }
}

/// Parsed frontmatter.
pub struct Frontmatter {
    /// Every key with a value, in the order keys first appeared; a later
    /// line with the same key replaces the value.
    pub raw: Vec<(String, FrontmatterValue)>,
    pub title: Option<String>,
    pub tags: Vec<String>,
    pub aliases: Vec<String>,
}

/// The mathematical value of a [`Frontmatter`].
pub struct FrontmatterV {
    pub raw: Seq<(Seq<char>, FrontmatterValueV)>,
    pub title: Option<Seq<char>>,
    pub tags: Seq<Seq<char>>,
    pub aliases: Seq<Seq<char>>,
}

/// The key/value pairs as values.
pub open spec fn raw_views(v: Seq<(String, FrontmatterValue)>) -> Seq<(Seq<char>, FrontmatterValueV)> {
    v.map_values(|p: (String, FrontmatterValue)| (p.0@, p.1@))
}

impl View for Frontmatter {
    type V = FrontmatterV;

    open spec fn view(&self) -> FrontmatterV {
        FrontmatterV {
            raw: raw_views(self.raw@),
            title: crate::markdown::opt_view(self.title),
            tags: strs(self.tags@),
            aliases: strs(self.aliases@),
        }
    }
}

/// The frontmatter of a note that has none.
pub open spec fn empty_frontmatter() -> FrontmatterV {
    FrontmatterV { raw: seq![], title: None, tags: seq![], aliases: seq![] }
}

/// The key `title`.
pub open spec fn title_key() -> Seq<char> {
    seq!['t', 'i', 't', 'l', 'e']
}

/// The key `tags`.
pub open spec fn tags_key() -> Seq<char> {
    seq!['t', 'a', 'g', 's']
}

/// The key `aliases`.
pub open spec fn aliases_key() -> Seq<char> {
    seq!['a', 'l', 'i', 'a', 's', 'e', 's']
}

/// The delimiter line `---`.
pub open spec fn dashes() -> Seq<char> {
    seq!['-', '-', '-']
}

/// The position of `k` among the keys, if present.
pub open spec fn key_pos(raw: Seq<(Seq<char>, FrontmatterValueV)>, k: Seq<char>) -> Option<int>
    decreases raw.len(),
{
    if raw.len() == 0 {
        None
    } else if raw[0].0 == k {
        Some(0)
    } else {
        crate::text::shift(key_pos(raw.drop_first(), k), 1)
    }
}

/// Sets `k` to `v`: replaces the value of an existing key, or appends.
pub open spec fn raw_insert(
    raw: Seq<(Seq<char>, FrontmatterValueV)>,
    k: Seq<char>,
    v: FrontmatterValueV,
) -> Seq<(Seq<char>, FrontmatterValueV)> {
    match key_pos(raw, k) {
        Some(i) => raw.update(i, (k, v)),
        None => raw.push((k, v)),
    }
}

/// The string value of `k`, if `k` holds a string.
pub open spec fn raw_text(raw: Seq<(Seq<char>, FrontmatterValueV)>, k: Seq<char>) -> Option<Seq<char>> {
    match key_pos(raw, k) {
        Some(i) => match raw[i].1 {
            FrontmatterValueV::Text(s) => Some(s),
            FrontmatterValueV::List(_) => None,
        },
        None => None,
    }
}

/// A YAML scalar without its surrounding quotes (`"..."` or `'...'`).
pub open spec fn clean_value(s: Seq<char>) -> Seq<char> {
    let t = trimmed(s);
    if t.len() >= 2 && ((t[0] == '"' && t.last() == '"') || (t[0] == '\'' && t.last() == '\'')) {
        t.subrange(1, t.len() - 1)
    } else {
        t
    }
}

/// The items of an inline array `[a, b, "c d"]`: split at `,`, each item
/// cleaned, empty items dropped; not an array gives no items.
pub open spec fn inline_array(s: Seq<char>) -> Seq<Seq<char>> {
    let t = trimmed(s);
    if t.len() > 0 && t[0] == '[' && t.last() == ']' && t.len() >= 2 {
        split_on(t.subrange(1, t.len() - 1), ',').map_values(|x: Seq<char>| clean_value(trimmed(x))).filter(
            |x: Seq<char>| x.len() > 0,
        )
    } else {
        seq![]
    }
}

/// The items of a list value: an inline array, or a single cleaned value.
pub open spec fn value_items(v: Seq<char>) -> Seq<Seq<char>> {
    if v.len() > 0 && v[0] == '[' {
        inline_array(v)
    } else {
        seq![clean_value(v)]
    }
}

/// Frontmatter being read, with the key of the last `key:` line.
pub struct FmState {
    pub fm: FrontmatterV,
    pub key: Option<Seq<char>>,
}

/// Reads one frontmatter line.
pub open spec fn fm_step(st: FmState, line: Seq<char>) -> FmState {
    let t = trimmed(line);
    if t.len() == 0 {
        st
    } else if starts_with(t, seq!['-', ' ']) {
        match st.key {
            Some(key) => {
                let clean = clean_value(trimmed(t.subrange(2, t.len() as int)));
                if key == tags_key() {
                    FmState { fm: FrontmatterV { tags: st.fm.tags.push(clean), ..st.fm }, ..st }
                } else if key == aliases_key() {
                    FmState { fm: FrontmatterV { aliases: st.fm.aliases.push(clean), ..st.fm }, ..st }
                } else {
                    st
                }
            },
            None => st,
        }
    } else {
        match first_index(t, ':') {
            Some(p) => {
                let key = str_lowercase(trimmed(t.subrange(0, p)));
                let value = trimmed(t.subrange(p + 1, t.len() as int));
                let fm = st.fm;
                if value.len() == 0 {
                    FmState { fm, key: Some(key) }
                } else if key == title_key() {
                    let clean = clean_value(value);
                    FmState {
                        fm: FrontmatterV {
                            title: Some(clean),
                            raw: raw_insert(fm.raw, title_key(), FrontmatterValueV::Text(clean)),
                            ..fm
                        },
                        key: Some(key),
                    }
                } else if key == tags_key() {
                    let items = value_items(value);
                    FmState {
                        fm: FrontmatterV {
                            tags: items,
                            raw: raw_insert(fm.raw, tags_key(), FrontmatterValueV::List(items)),
                            ..fm
                        },
                        key: Some(key),
                    }
                } else if key == aliases_key() {
                    let items = value_items(value);
                    FmState {
                        fm: FrontmatterV {
                            aliases: items,
                            raw: raw_insert(fm.raw, aliases_key(), FrontmatterValueV::List(items)),
                            ..fm
                        },
                        key: Some(key),
                    }
                } else {
                    FmState {
                        fm: FrontmatterV {
                            raw: raw_insert(fm.raw, key, FrontmatterValueV::Text(clean_value(value))),
                            ..fm
                        },
                        key: Some(key),
                    }
                }
            },
            None => st,
        }
    }
}

/// Reads frontmatter lines in order.
pub open spec fn fm_read(ls: Seq<Seq<char>>) -> FmState
    decreases ls.len(),
{
    if ls.len() == 0 {
        FmState { fm: empty_frontmatter(), key: None }
    } else {
        fm_step(fm_read(ls.drop_last()), ls.last())
    }
}

/// The frontmatter that the given lines hold.
pub open spec fn frontmatter_of(ls: Seq<Seq<char>>) -> FrontmatterV {
    fm_read(ls).fm
}

/// The content without a leading byte-order mark.
pub open spec fn strip_bom(c: Seq<char>) -> Seq<char> {
    if c.len() > 0 && c[0] == '\u{feff}' {
        c.drop_first()
    } else {
        c
    }
}

/// The first line at or after `k` that is `---` once trailing `'\r'` are
/// removed.
pub open spec fn closing_line(ls: Seq<Seq<char>>, k: int) -> Option<int>
    decreases ls.len() - k,
{
    if k < 0 || k >= ls.len() {
        None
    } else if trimmed_end_char(ls[k], '\r') == dashes() {
        Some(k)
    } else {
        closing_line(ls, k + 1)
    }
}

/// Splits content into frontmatter and body. The frontmatter sits between a
/// first line that is `---` and the next line that is `---` (each up to
/// trailing `'\r'`, so `\r\n` line endings are handled); the body is everything after that line. Without both
/// delimiters the whole content (byte-order mark removed) is the body.
pub open spec fn split_frontmatter(content: Seq<char>) -> (FrontmatterV, Seq<char>) {
    let c = strip_bom(content);
    let ls = split_on(c, '\n');
    if trimmed_end_char(ls[0], '\r') != dashes() {
        (empty_frontmatter(), c)
    } else {
        match closing_line(ls, 1) {
            Some(k) => (
                frontmatter_of(
                    ls.subrange(1, k).map_values(|l: Seq<char>| trimmed_end_char(l, '\r')),
                ),
                join(ls.subrange(k + 1, ls.len() as int), seq!['\n']),
            ),
            None => (empty_frontmatter(), c),
        }
    }
}

/// Characters of a string literal.
fn lit(s: &str) -> (r: Vec<char>)
    ensures
        r@ == s@,
{
    to_chars(s)
}

/// The key `title` as characters.
fn title_chars() -> (r: Vec<char>)
    ensures
        r@ == title_key(),
{
    let r = lit("title");
    proof {
        reveal_strlit("title");
    }
    assert(r@ =~= title_key());
    r
}

/// The key `tags` as characters.
fn tags_chars() -> (r: Vec<char>)
    ensures
        r@ == tags_key(),
{
    let r = lit("tags");
    proof {
        reveal_strlit("tags");
    }
    assert(r@ =~= tags_key());
    r
}

/// The key `aliases` as characters.
fn aliases_chars() -> (r: Vec<char>)
    ensures
        r@ == aliases_key(),
{
    let r = lit("aliases");
    proof {
        reveal_strlit("aliases");
    }
    assert(r@ =~= aliases_key());
    r
}

/// A copy of a vector of strings.
pub fn copy_strings(v: &Vec<String>) -> (r: Vec<String>)
    ensures
        strs(r@) == strs(v@),
{
    let mut r: Vec<String> = Vec::new();
    let mut i: usize = 0;
    while i < v.len()
        invariant
            i <= v.len(),
            r@.len() == i,
            strs(r@) == strs(v@).take(i as int),
        decreases v.len() - i,
    {
        r.push(v[i].clone());
        assert(strs(r@) =~= strs(v@).take(i + 1));
        i += 1;
    }
    assert(strs(v@).take(v.len() as int) =~= strs(v@));
    r
}

/// Strings holding the given character vectors.
pub fn to_strings(v: &Vec<Vec<char>>) -> (r: Vec<String>)
    ensures
        strs(r@) == views(v@),
{
    let mut r: Vec<String> = Vec::new();
    let mut i: usize = 0;
    while i < v.len()
        invariant
            i <= v.len(),
            r@.len() == i,
            strs(r@) == views(v@).take(i as int),
        decreases v.len() - i,
    {
        assert(views(v@)[i as int] == v@[i as int]@);
        r.push(from_chars(&v[i]));
        assert(strs(r@) =~= views(v@).take(i + 1));
        i += 1;
    }
    assert(views(v@).take(v.len() as int) =~= views(v@));
    r
}

/// Strips surrounding quotes from a YAML string value.
pub fn clean_value_chars(v: &Vec<char>) -> (r: Vec<char>)
    ensures
        r@ == clean_value(v@),
{
    let t = trim(v);
    if t.len() >= 2 && ((t[0] == '"' && t[t.len() - 1] == '"') || (t[0] == '\'' && t[t.len() - 1]
        == '\'')) {
        slice(&t, 1, t.len() - 1)
    } else {
        t
    }
}

/// Strips surrounding quotes from a YAML string value.
pub fn clean_yaml_value(s: &str) -> (r: String)
    ensures
        r@ == clean_value(s@),
{
    let v = to_chars(s);
    from_chars(&clean_value_chars(&v))
}

/// Parses an inline YAML array like `[a, b, "c d"]`.
pub fn inline_array_chars(v: &Vec<char>) -> (r: Vec<Vec<char>>)
    ensures
        views(r@) == inline_array(v@),
{
    let t = trim(v);
    if !(t.len() > 0 && t[0] == '[' && t[t.len() - 1] == ']' && t.len() >= 2) {
        let r: Vec<Vec<char>> = Vec::new();
        assert(views(r@) =~= inline_array(v@));
        return r;
    }
    let inner = slice(&t, 1, t.len() - 1);
    let parts = split_char(&inner, ',');
    let ghost cleaned = views(parts@).map_values(|x: Seq<char>| clean_value(trimmed(x)));
    let mut r: Vec<Vec<char>> = Vec::new();
    let mut i: usize = 0;
    assert(cleaned.take(0) =~= Seq::<Seq<char>>::empty());
    proof {
        reveal(Seq::filter);
    }
    while i < parts.len()
        invariant
            i <= parts.len(),
            cleaned == views(parts@).map_values(|x: Seq<char>| clean_value(trimmed(x))),
            views(r@) == cleaned.take(i as int).filter(|x: Seq<char>| x.len() > 0),
        decreases parts.len() - i,
    {
        proof {
            reveal(Seq::filter);
        }
        assert(views(parts@)[i as int] == parts@[i as int]@);
        let item = trim(&parts[i]);
        let c = clean_value_chars(&item);
        assert(cleaned[i as int] == c@);
        assert(cleaned.take(i + 1).drop_last() =~= cleaned.take(i as int));
        if c.len() > 0 {
            let ghost before = views(r@);
            r.push(c);
            assert(views(r@) =~= before.push(cleaned[i as int]));
        }
        i += 1;
    }
    assert(cleaned.take(parts.len() as int) =~= cleaned);
    r
}

/// Parses an inline YAML array like `[a, b, "c d"]`.
pub fn parse_inline_array(s: &str) -> (r: Vec<String>)
    ensures
        strs(r@) == inline_array(s@),
{
    let v = to_chars(s);
    to_strings(&inline_array_chars(&v))
}

/// The items of a list value.
fn value_items_chars(v: &Vec<char>) -> (r: Vec<Vec<char>>)
    ensures
        views(r@) == value_items(v@),
{
    if v.len() > 0 && v[0] == '[' {
        inline_array_chars(v)
    } else {
        let mut r: Vec<Vec<char>> = Vec::new();
        r.push(clean_value_chars(v));
        assert(views(r@) =~= value_items(v@));
        r
    }
}

/// The position of key `k` in `raw`.
fn find_key(raw: &Vec<(String, FrontmatterValue)>, k: &String) -> (r: Option<usize>)
    ensures
        opt_usize(r) == key_pos(raw_views(raw@), k@),
        r matches Some(i) ==> i < raw.len(),
{
    let ghost rv = raw_views(raw@);
    let mut i: usize = 0;
    assert(rv.subrange(0, rv.len() as int) =~= rv);
    while i < raw.len()
        invariant
            i <= raw.len(),
            rv == raw_views(raw@),
            key_pos(rv, k@) == crate::text::shift(
                key_pos(rv.subrange(i as int, rv.len() as int), k@),
                i as int,
            ),
        decreases raw.len() - i,
    {
        assert(rv[i as int].0 == raw@[i as int].0@);
        if raw[i].0 == *k {
            return Some(i);
        }
        assert(rv.subrange(i as int, rv.len() as int).drop_first() =~= rv.subrange(
            i + 1,
            rv.len() as int,
        ));
        i += 1;
    }
    None
}

/// An optional index as an integer.
pub open spec fn opt_usize(o: Option<usize>) -> Option<int> {
    match o {
        Some(i) => Some(i as int),
        None => None,
    }
}

/// Sets key `k` to `v` in `raw`.
fn insert_raw(raw: &mut Vec<(String, FrontmatterValue)>, k: String, v: FrontmatterValue)
    ensures
        raw_views(final(raw)@) == raw_insert(raw_views(old(raw)@), k@, v@),
{
    let ghost kv = k@;
    let ghost vv = v@;
    match find_key(raw, &k) {
        Some(i) => {
            raw.set(i, (k, v));
            assert(raw_views(raw@) =~= raw_insert(raw_views(old(raw)@), kv, vv));
        },
        None => {
            raw.push((k, v));
            assert(raw_views(raw@) =~= raw_insert(raw_views(old(raw)@), kv, vv));
        },
    }
}

/// Frontmatter being read, with the key of the last `key:` line.
struct FmReader {
    fm: Frontmatter,
    key: Option<Vec<char>>,
}

impl View for FmReader {
    type V = FmState;

    closed spec fn view(&self) -> FmState {
        FmState { fm: self.fm@, key: crate::markdown::opt_chars(self.key) }
    }
}

/// An empty frontmatter.
pub fn new_frontmatter() -> (r: Frontmatter)
    ensures
        r@ == empty_frontmatter(),
{
    let r = Frontmatter { raw: Vec::new(), title: None, tags: Vec::new(), aliases: Vec::new() };
    assert(r@.raw =~= empty_frontmatter().raw);
    assert(r@.tags =~= empty_frontmatter().tags);
    assert(r@.aliases =~= empty_frontmatter().aliases);
    r
}

/// Reads one frontmatter line into `st`.
fn read_line(st: &mut FmReader, line: &Vec<char>)
    ensures
        final(st)@ == fm_step(old(st)@, line@),
{
    let t = trim(line);
    if t.len() == 0 {
        return ;
    }
    if t.len() >= 2 && t[0] == '-' && t[1] == ' ' {
        assert(starts_with(t@, seq!['-', ' '])) by {
            assert(t@.subrange(0, 2) =~= seq!['-', ' ']);
        }
        let is_tags;
        let is_aliases;
        match &st.key {
            Some(key) => {
                is_tags = chars_eq(key, &tags_chars());
                is_aliases = chars_eq(key, &aliases_chars());
            },
            None => {
                return ;
            },
        }
        let rest = slice(&t, 2, t.len());
        let value = trim(&rest);
        let clean = clean_value_chars(&value);
        if is_tags {
            let ghost before = strs(st.fm.tags@);
            st.fm.tags.push(from_chars(&clean));
            assert(strs(st.fm.tags@) =~= before.push(clean@));
        } else if is_aliases {
            let ghost before = strs(st.fm.aliases@);
            st.fm.aliases.push(from_chars(&clean));
            assert(strs(st.fm.aliases@) =~= before.push(clean@));
        }
        return ;
    }
    assert(!starts_with(t@, seq!['-', ' '])) by {
        if starts_with(t@, seq!['-', ' ']) {
            assert(t@.subrange(0, 2)[0] == '-');
            assert(t@.subrange(0, 2)[1] == ' ');
        }
    }
    let colon = find_char(&t, ':');
    proof {
        crate::text::lemma_first_index(t@, ':');
    }
    match colon {
        Some(p) => {
            let kpart = slice(&t, 0, p);
            let ktrim = trim(&kpart);
            let key = lowercase(&ktrim);
            let vpart = slice(&t, p + 1, t.len());
            let value = trim(&vpart);
            st.key = Some(copy_chars(&key));
            if value.len() == 0 {
                return ;
            }
            if chars_eq(&key, &title_chars()) {
                let clean = clean_value_chars(&value);
                st.fm.title = Some(from_chars(&clean));
                insert_raw(
                    &mut st.fm.raw,
                    from_chars(&title_chars()),
                    FrontmatterValue::Text(from_chars(&clean)),
                );
            } else if chars_eq(&key, &tags_chars()) {
                let items = to_strings(&value_items_chars(&value));
                st.fm.tags = copy_strings(&items);
                insert_raw(&mut st.fm.raw, from_chars(&tags_chars()), FrontmatterValue::List(items));
            } else if chars_eq(&key, &aliases_chars()) {
                let items = to_strings(&value_items_chars(&value));
                st.fm.aliases = copy_strings(&items);
                insert_raw(
                    &mut st.fm.raw,
                    from_chars(&aliases_chars()),
                    FrontmatterValue::List(items),
                );
            } else {
                let clean = clean_value_chars(&value);
                insert_raw(&mut st.fm.raw, from_chars(&key), FrontmatterValue::Text(from_chars(&clean)));
            }
        },
        None => {},
    }
}

/// Parses frontmatter `key: value` lines.
pub fn frontmatter_from_lines(ls: &Vec<Vec<char>>) -> (r: Frontmatter)
    ensures
        r@ == frontmatter_of(views(ls@)),
{
    let mut st = FmReader { fm: new_frontmatter(), key: None };
    let mut k: usize = 0;
    assert(views(ls@).take(0) =~= Seq::<Seq<char>>::empty());
    while k < ls.len()
        invariant
            k <= ls.len(),
            st@ == fm_read(views(ls@).take(k as int)),
        decreases ls.len() - k,
    {
        assert(views(ls@)[k as int] == ls@[k as int]@);
        assert(views(ls@).take(k + 1).drop_last() =~= views(ls@).take(k as int));
        read_line(&mut st, &ls[k]);
        k += 1;
    }
    assert(views(ls@).take(ls.len() as int) =~= views(ls@));
    st.fm
}

/// A copy of `v[a..b]` for a vector of character vectors.
pub fn slice_lines(v: &Vec<Vec<char>>, a: usize, b: usize) -> (r: Vec<Vec<char>>)
    requires
        a <= b <= v.len(),
    ensures
        views(r@) == views(v@).subrange(a as int, b as int),
{
    let mut r: Vec<Vec<char>> = Vec::new();
    let mut i = a;
    while i < b
        invariant
            a <= i <= b <= v.len(),
            r@.len() == i - a,
            views(r@) == views(v@).subrange(a as int, i as int),
        decreases b - i,
    {
        assert(views(v@)[i as int] == v@[i as int]@);
        let ghost before = views(r@);
        r.push(copy_chars(&v[i]));
        assert(views(r@) =~= views(v@).subrange(a as int, i + 1));
        i += 1;
    }
    r
}

/// Whether `l` is `---` once trailing `'\r'` are removed.
fn is_closing(l: &Vec<char>) -> (r: bool)
    ensures
        r == (trimmed_end_char(l@, '\r') == dashes()),
{
    let t = trim_end_char(l, '\r');
    let r = t.len() == 3 && t[0] == '-' && t[1] == '-' && t[2] == '-';
    if r {
        assert(t@ =~= dashes());
    }
    r
}

/// Splits content into frontmatter and body.
///
/// Handles a byte-order mark and `\r\n` line endings.
pub fn split_frontmatter_chars(content: &Vec<char>) -> (r: (Frontmatter, Vec<char>))
    ensures
        (r.0@, r.1@) == split_frontmatter(content@),
{
    let c = if content.len() > 0 && content[0] == '\u{feff}' {
        slice(content, 1, content.len())
    } else {
        copy_chars(content)
    };
    assert(c@ =~= strip_bom(content@));
    let ls = split_char(&c, '\n');
    proof {
        crate::text::lemma_split_on_nonempty(c@, '\n');
    }
    assert(views(ls@)[0] == ls@[0]@);
    let opens = is_closing(&ls[0]);
    if !opens {
        return (new_frontmatter(), c);
    }
    let mut k: usize = 1;
    while k < ls.len()
        invariant
            1 <= k <= ls.len(),
            c@ == strip_bom(content@),
            trimmed_end_char(views(ls@)[0], '\r') == dashes(),
            views(ls@) == split_on(c@, '\n'),
            closing_line(views(ls@), 1) == closing_line(views(ls@), k as int),
        decreases ls.len() - k,
    {
        assert(views(ls@)[k as int] == ls@[k as int]@);
        if is_closing(&ls[k]) {
            let mut fm_lines: Vec<Vec<char>> = Vec::new();
            let mut j: usize = 1;
            let ghost inner = views(ls@).subrange(1, k as int).map_values(
                |l: Seq<char>| trimmed_end_char(l, '\r'),
            );
            while j < k
                invariant
                    1 <= j <= k < ls.len(),
                    inner == views(ls@).subrange(1, k as int).map_values(
                        |l: Seq<char>| trimmed_end_char(l, '\r'),
                    ),
                    fm_lines@.len() == j - 1,
                    views(fm_lines@) == inner.take(j - 1),
                decreases k - j,
            {
                assert(views(ls@)[j as int] == ls@[j as int]@);
                let ghost before = views(fm_lines@);
                fm_lines.push(trim_end_char(&ls[j], '\r'));
                assert(views(fm_lines@) =~= inner.take(j as int));
                j += 1;
            }
            assert(inner.take(k - 1) =~= inner);
            let fm = frontmatter_from_lines(&fm_lines);
            let rest = slice_lines(&ls, k + 1, ls.len());
            let body = join_with(&rest, '\n');
            return (fm, body);
        }
        k += 1;
    }
    (new_frontmatter(), c)
}

/// Splits content into frontmatter and body.
///
/// Handles a byte-order mark and `\r\n` line endings.
pub fn split_and_parse_frontmatter(content: &str) -> (r: (Frontmatter, String))
    ensures
        (r.0@, r.1@) == split_frontmatter(content@),
{
    let c = to_chars(content);
    let (fm, body) = split_frontmatter_chars(&c);
    (fm, from_chars(&body))
}

/// Parses frontmatter `key: value` lines.
///
/// Handles `[a, b]` inline arrays, `- item` multi-line lists and quoted
/// strings.
pub fn parse_frontmatter_lines(fm_lines: &Vec<String>) -> (r: Frontmatter)
    ensures
        r@ == frontmatter_of(strs(fm_lines@)),
{
    let mut ls: Vec<Vec<char>> = Vec::new();
    let mut i: usize = 0;
    while i < fm_lines.len()
        invariant
            i <= fm_lines.len(),
            ls@.len() == i,
            views(ls@) == strs(fm_lines@).take(i as int),
        decreases fm_lines.len() - i,
    {
        let ghost before = views(ls@);
        ls.push(to_chars(fm_lines[i].as_str()));
        assert(views(ls@) =~= strs(fm_lines@).take(i + 1));
        i += 1;
    }
    assert(strs(fm_lines@).take(fm_lines.len() as int) =~= strs(fm_lines@));
    frontmatter_from_lines(&ls)
}

impl Frontmatter {
    /// The string value of `key`, if the frontmatter gives `key` a string.
    pub fn raw_str(&self, key: &str) -> (r: Option<String>)
        ensures
            crate::markdown::opt_view(r) == raw_text(self@.raw, key@),
    {
        let k = String::from_str(key);
        match find_key(&self.raw, &k) {
            Some(i) => match &self.raw[i].1 {
                FrontmatterValue::Text(s) => Some(s.clone()),
                FrontmatterValue::List(_) => None,
            },
            None => None,
        }
    }
}

/// A copy of a frontmatter value.
pub fn copy_value(v: &FrontmatterValue) -> (r: FrontmatterValue)
    ensures
        r@ == v@,
{
    match v {
        FrontmatterValue::Text(s) => FrontmatterValue::Text(s.clone()),
        FrontmatterValue::List(l) => FrontmatterValue::List(copy_strings(l)),
    }
}

/// A copy of a frontmatter.
pub fn copy_frontmatter(f: &Frontmatter) -> (r: Frontmatter)
    ensures
        r@ == f@,
{
    let mut raw: Vec<(String, FrontmatterValue)> = Vec::new();
    let mut i: usize = 0;
    while i < f.raw.len()
        invariant
            i <= f.raw.len(),
            raw@.len() == i,
            raw_views(raw@) == raw_views(f.raw@).take(i as int),
        decreases f.raw.len() - i,
    {
        raw.push((f.raw[i].0.clone(), copy_value(&f.raw[i].1)));
        assert(raw_views(raw@) =~= raw_views(f.raw@).take(i + 1));
        i += 1;
    }
    assert(raw_views(f.raw@).take(f.raw.len() as int) =~= raw_views(f.raw@));
    Frontmatter {
        raw,
        title: crate::markdown::copy_opt(&f.title),
        tags: copy_strings(&f.tags),
        aliases: copy_strings(&f.aliases),
    }
}

} // verus!
