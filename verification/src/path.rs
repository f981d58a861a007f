//! `/`-separated paths as text: components, prefixes, extensions and
//! hidden entries.
use vstd::prelude::*;

use crate::text::{
    copy_chars, join, join_with, last_index, rfind_char, slice, split_char, split_on, to_chars,
    views,
};

verus! {

/// The component `.`.
pub open spec fn dot() -> Seq<char> {
    seq!['.']
}

/// The component `..`.
pub open spec fn dot_dot() -> Seq<char> {
    seq!['.', '.']
}

/// A piece between separators that names something: not empty, not `.`.
pub open spec fn is_component(c: Seq<char>) -> bool {
    c.len() > 0 && c != dot()
}

/// The pieces of a path that name something, in order (repeated
/// separators and `.` pieces carry no name).
pub open spec fn named_parts(p: Seq<char>) -> Seq<Seq<char>> {
    split_on(p, '/').filter(|c: Seq<char>| is_component(c))
}

/// The components of a path (`Path::components`): its named pieces, after
/// a `.` component when the path starts with a `.` piece (`./a`), the one
/// place where `.` is kept.
pub open spec fn components(p: Seq<char>) -> Seq<Seq<char>> {
    if split_on(p, '/')[0] == dot() {
        seq![dot()] + named_parts(p)
    } else {
        named_parts(p)
    }
}

/// The path starts at the root.
pub open spec fn is_rooted(p: Seq<char>) -> bool {
    p.len() > 0 && p[0] == '/'
}

/// `p` relative to `base` (`Path::strip_prefix`): defined when the
/// components of `base` start those of `p` and both or neither are rooted
/// (an empty relative base strips nothing); the remaining components are
/// joined with `/`.
pub open spec fn strip_prefix_path(p: Seq<char>, base: Seq<char>) -> Option<Seq<char>> {
    let pp = components(p);
    let pb = components(base);
    if is_rooted(base) && !is_rooted(p) {
        None
    } else if !is_rooted(base) && is_rooted(p) {
        if pb.len() == 0 {
            Some(seq!['/'] + join(pp, seq!['/']))
        } else {
            None
        }
    } else if pb.len() <= pp.len() && pp.subrange(0, pb.len() as int) == pb {
        Some(join(pp.subrange(pb.len() as int, pp.len() as int), seq!['/']))
    } else {
        None
    }
}

/// The last component, unless it is `.` or `..` (`Path::file_name`).
pub open spec fn path_file_name(p: Seq<char>) -> Option<Seq<char>> {
    let cs = components(p);
    if cs.len() > 0 && cs.last() != dot_dot() && cs.last() != dot() {
        Some(cs.last())
    } else {
        None
    }
}

/// The extension of a path (`Path::extension`): what follows the last `.`
/// of the file name, when that `.` does not start the name.
pub open spec fn path_extension(p: Seq<char>) -> Option<Seq<char>> {
    match path_file_name(p) {
        Some(n) => match last_index(n, '.') {
            Some(d) => if d > 0 {
                Some(n.subrange(d + 1, n.len() as int))
            } else {
                None
            },
            None => None,
        },
        None => None,
    }
}

/// Some component starts with `.` (hidden files and folders, `..`, and the
/// `.` that leads a path such as `./a`).
pub open spec fn is_hidden(p: Seq<char>) -> bool {
    exists|i: int| 0 <= i < components(p).len() && #[trigger] components(p)[i][0] == '.'
}

/// The extension `md`.
pub open spec fn md() -> Seq<char> {
    seq!['m', 'd']
}

/// A Markdown file: its extension is exactly `md`.
pub open spec fn is_markdown(p: Seq<char>) -> bool {
    path_extension(p) == Some(md())
}

/// ASCII lower case of a character.
pub open spec fn ascii_lower(c: char) -> char {
    if 'A' <= c && c <= 'Z' {
        (((c as u8) + 32) as u8) as char
    } else {
        c
    }
}

/// A Markdown file up to ASCII case (`md`, `MD`, `Md`, `mD`).
pub open spec fn is_markdown_any_case(p: Seq<char>) -> bool {
    match path_extension(p) {
        Some(e) => e.len() == 2 && ascii_lower(e[0]) == 'm' && ascii_lower(e[1]) == 'd',
        None => false,
    }
}

/// A file that the indexer reads: Markdown and not hidden.
pub open spec fn is_indexable(p: Seq<char>) -> bool {
    is_markdown(p) && !is_hidden(p)
}

/// The components of `p`.
pub fn path_components(p: &Vec<char>) -> (r: Vec<Vec<char>>)
    ensures
        views(r@) == components(p@),
{
    let parts = split_char(p, '/');
    let ghost pv = views(parts@);
    proof {
        crate::text::lemma_split_on_nonempty(p@, '/');
    }
    assert(pv[0] == parts@[0]@);
    let lead = parts[0].len() == 1 && parts[0][0] == '.';
    if lead {
        assert(parts@[0]@ =~= dot());
    } else {
        assert(parts@[0]@ != dot()) by {
            if parts@[0]@ == dot() {
                assert(parts@[0]@[0] == '.');
            }
        }
    }
    let mut r: Vec<Vec<char>> = Vec::new();
    if lead {
        r.push(vec!['.']);
        assert(r@[0]@ =~= dot());
    }
    let ghost head: Seq<Seq<char>> = if lead { seq![dot()] } else { seq![] };
    assert(views(r@) =~= head);
    let mut i: usize = 0;
    assert(pv.take(0) =~= Seq::<Seq<char>>::empty());
    proof {
        reveal(Seq::filter);
    }
    assert(head + pv.take(0).filter(|c: Seq<char>| is_component(c)) =~= head);
    while i < parts.len()
        invariant
            i <= parts.len(),
            pv == views(parts@),
            views(r@) == head + pv.take(i as int).filter(|c: Seq<char>| is_component(c)),
        decreases parts.len() - i,
    {
        proof {
            reveal(Seq::filter);
        }
        assert(pv.take(i + 1).drop_last() =~= pv.take(i as int));
        assert(pv[i as int] == parts@[i as int]@);
        let c = &parts[i];
        let is_dot = c.len() == 1 && c[0] == '.';
        if is_dot {
            assert(c@ =~= dot());
        } else {
            assert(c@ != dot()) by {
                if c@ == dot() {
                    assert(c@[0] == '.');
                }
            }
        }
        if c.len() > 0 && !is_dot {
            let ghost before = views(r@);
            r.push(copy_chars(c));
            assert(views(r@) =~= before.push(c@));
            assert(head + pv.take(i + 1).filter(|c: Seq<char>| is_component(c)) =~= (head
                + pv.take(i as int).filter(|c: Seq<char>| is_component(c))).push(c@));
        }
        i += 1;
    }
    assert(pv.take(parts.len() as int) =~= pv);
    r
}

/// Whether two vectors of components are equal on their first `n` items.
fn same_prefix(a: &Vec<Vec<char>>, b: &Vec<Vec<char>>, n: usize) -> (r: bool)
    requires
        n <= a.len(),
        n <= b.len(),
    ensures
        r == (views(a@).subrange(0, n as int) == views(b@).subrange(0, n as int)),
{
    let mut i: usize = 0;
    while i < n
        invariant
            i <= n <= a.len(),
            n <= b.len(),
            forall|j: int| 0 <= j < i ==> views(a@)[j] == views(b@)[j],
        decreases n - i,
    {
        assert(views(a@)[i as int] == a@[i as int]@);
        assert(views(b@)[i as int] == b@[i as int]@);
        if !crate::text::chars_eq(&a[i], &b[i]) {
            assert(views(a@).subrange(0, n as int)[i as int] != views(b@).subrange(0, n as int)[i as int]);
            return false;
        }
        i += 1;
    }
    assert(views(a@).subrange(0, n as int) =~= views(b@).subrange(0, n as int));
    true
}

/// `p` relative to `base`, if `base` is a prefix of it.
pub fn strip_path_prefix(p: &Vec<char>, base: &Vec<char>) -> (r: Option<Vec<char>>)
    ensures
        crate::markdown::opt_chars(r) == strip_prefix_path(p@, base@),
{
    let pp = path_components(p);
    let pb = path_components(base);
    let rp = p.len() > 0 && p[0] == '/';
    let rb = base.len() > 0 && base[0] == '/';
    if rb && !rp {
        None
    } else if !rb && rp {
        if pb.len() == 0 {
            let mut r: Vec<char> = Vec::new();
            r.push('/');
            let rest = join_with(&pp, '/');
            let mut i: usize = 0;
            while i < rest.len()
                invariant
                    i <= rest.len(),
                    r@ == seq!['/'] + rest@.take(i as int),
                decreases rest.len() - i,
            {
                r.push(rest[i]);
                assert(seq!['/'] + rest@.take(i + 1) =~= (seq!['/'] + rest@.take(i as int)).push(
                    rest@[i as int],
                ));
                i += 1;
            }
            assert(rest@.take(rest.len() as int) =~= rest@);
            Some(r)
        } else {
            None
        }
    } else if pb.len() <= pp.len() && same_prefix(&pp, &pb, pb.len()) {
        assert(views(pb@).subrange(0, pb.len() as int) =~= views(pb@));
        let rest = crate::frontmatter::slice_lines(&pp, pb.len(), pp.len());
        Some(join_with(&rest, '/'))
    } else {
        proof {
            if pb.len() <= pp.len() {
                assert(views(pb@).subrange(0, pb.len() as int) =~= views(pb@));
            }
        }
        None
    }
}

/// The file name of a path.
pub(crate) fn file_name_of(p: &Vec<char>) -> (r: Option<Vec<char>>)
    ensures
        crate::markdown::opt_chars(r) == path_file_name(p@),
{
    let cs = path_components(p);
    if cs.len() == 0 {
        return None;
    }
    let last = &cs[cs.len() - 1];
    assert(views(cs@).last() == last@);
    let is_dd = last.len() == 2 && last[0] == '.' && last[1] == '.';
    let is_d = last.len() == 1 && last[0] == '.';
    if is_dd {
        assert(last@ =~= dot_dot());
        None
    } else if is_d {
        assert(last@ =~= dot());
        None
    } else {
        assert(last@ != dot_dot()) by {
            if last@ == dot_dot() {
                assert(last@[0] == '.' && last@[1] == '.');
            }
        }
        assert(last@ != dot()) by {
            if last@ == dot() {
                assert(last@[0] == '.');
            }
        }
        Some(copy_chars(last))
    }
}

/// The extension of a path.
pub fn extension_of(p: &Vec<char>) -> (r: Option<Vec<char>>)
    ensures
        crate::markdown::opt_chars(r) == path_extension(p@),
{
    match file_name_of(p) {
        Some(n) => {
            let dot = rfind_char(&n, '.');
            proof {
                crate::text::lemma_last_index(n@, '.');
            }
            match dot {
                Some(d) => if d > 0 {
                    Some(slice(&n, d + 1, n.len()))
                } else {
                    None
                },
                None => None,
            }
        },
        None => None,
    }
}

/// Whether some component of `p` starts with `.`.
pub fn hidden(p: &Vec<char>) -> (r: bool)
    ensures
        r == is_hidden(p@),
{
    let cs = path_components(p);
    proof {
        lemma_components_nonempty(p@);
    }
    let mut i: usize = 0;
    while i < cs.len()
        invariant
            i <= cs.len(),
            views(cs@) == components(p@),
            forall|k: int| 0 <= k < components(p@).len() ==> (#[trigger] components(p@)[k]).len() > 0,
            forall|j: int| 0 <= j < i ==> views(cs@)[j][0] != '.',
        decreases cs.len() - i,
    {
        assert(views(cs@)[i as int] == cs@[i as int]@);
        assert(components(p@)[i as int].len() > 0);
        if cs[i][0] == '.' {
            return true;
        }
        i += 1;
    }
    false
}

/// Whether the extension of `p` is exactly `md`.
pub fn markdown_path(p: &Vec<char>) -> (r: bool)
    ensures
        r == is_markdown(p@),
{
    match extension_of(p) {
        Some(e) => {
            let r = e.len() == 2 && e[0] == 'm' && e[1] == 'd';
            if r {
                assert(e@ =~= md());
            } else {
                assert(e@ != md()) by {
                    if e@ == md() {
                        assert(e@[0] == 'm' && e@[1] == 'd');
                    }
                }
            }
            r
        },
        None => false,
    }
}

/// ASCII lower case of a character.
fn lower_ascii(c: char) -> (r: char)
    ensures
        r == ascii_lower(c),
{
    if 'A' <= c && c <= 'Z' {
        ((c as u8) + 32) as char
    } else {
        c
    }
}

/// Whether the extension of `p` is `md` up to ASCII case.
pub fn markdown_path_any_case(p: &Vec<char>) -> (r: bool)
    ensures
        r == is_markdown_any_case(p@),
{
    match extension_of(p) {
        Some(e) => e.len() == 2 && lower_ascii(e[0]) == 'm' && lower_ascii(e[1]) == 'd',
        None => false,
    }
}

/// Whether the indexer reads the file at `path`: a Markdown file with no
/// hidden component.
pub fn is_indexable_path(path: &str) -> (r: bool)
    ensures
        r == is_indexable(path@),
{
    let p = to_chars(path);
    markdown_path(&p) && !hidden(&p)
}

/// Whether `path` names a Markdown file (extension exactly `md`).
pub fn is_markdown_path(path: &str) -> (r: bool)
    ensures
        r == is_markdown(path@),
{
    let p = to_chars(path);
    markdown_path(&p)
}

// ---------------------------------------------------------------------------
// Joining components back
// ---------------------------------------------------------------------------

/// Splitting joined pieces free of the separator gives the pieces back.
proof fn lemma_split_join(cs: Seq<Seq<char>>, c: char)
    requires
        cs.len() > 0,
        forall|i: int| 0 <= i < cs.len() ==> !(#[trigger] cs[i]).contains(c),
    ensures
        split_on(join(cs, seq![c]), c) == cs,
    decreases cs.len(),
{
    if cs.len() == 1 {
        crate::text::lemma_split_extend(Seq::<char>::empty(), cs[0], c);
        assert(Seq::<char>::empty() + cs[0] =~= cs[0]);
        assert(split_on(Seq::<char>::empty(), c) =~= seq![Seq::<char>::empty()]);
        assert(split_on(join(cs, seq![c]), c) =~= cs);
    } else {
        let init = cs.drop_last();
        assert forall|i: int| 0 <= i < init.len() implies !(#[trigger] init[i]).contains(c) by {
            assert(init[i] == cs[i]);
        }
        lemma_split_join(init, c);
        let j = join(init, seq![c]);
        let last = cs.last();
        assert(!last.contains(c)) by {
            assert(cs[cs.len() - 1] == last);
        }
        assert(join(cs, seq![c]) =~= (j + seq![c]) + last);
        crate::text::lemma_split_extend(j + seq![c], last, c);
        assert((j + seq![c]).drop_last() =~= j);
        crate::text::lemma_split_on_nonempty(j, c);
        assert(split_on(j + seq![c], c) == split_on(j, c).push(Seq::<char>::empty()));
        assert(Seq::<char>::empty() + last =~= last);
        assert(split_on(join(cs, seq![c]), c) =~= cs);
    }
}

/// Keeping the elements that all pass a test keeps them all.
proof fn lemma_filter_keeps_all<A>(s: Seq<A>, f: spec_fn(A) -> bool)
    requires
        forall|k: int| 0 <= k < s.len() ==> f(#[trigger] s[k]),
    ensures
        s.filter(f) == s,
    decreases s.len(),
{
    reveal(Seq::filter);
    if s.len() > 0 {
        assert forall|k: int| 0 <= k < s.drop_last().len() implies f(#[trigger] s.drop_last()[k]) by {
            assert(s.drop_last()[k] == s[k]);
        }
        lemma_filter_keeps_all(s.drop_last(), f);
        assert(f(s[s.len() - 1]));
        assert(s.drop_last().push(s.last()) =~= s);
    }
}

/// The named pieces of `p` are components free of `/`.
proof fn lemma_named_clean(p: Seq<char>)
    ensures
        forall|i: int| 0 <= i < named_parts(p).len() ==> is_component(#[trigger] named_parts(p)[i])
            && !named_parts(p)[i].contains('/'),
{
    broadcast use vstd::seq_lib::group_filter_ensures;

    let parts = split_on(p, '/');
    crate::text::lemma_split_pieces_free(p, '/');
    assert forall|i: int| 0 <= i < named_parts(p).len() implies is_component(#[trigger] named_parts(p)[i])
        && !named_parts(p)[i].contains('/') by {
        let x = named_parts(p)[i];
        assert(named_parts(p).contains(x));
        parts.lemma_filter_contains_rev(|c: Seq<char>| is_component(c), x);
        let k = choose|k: int| 0 <= k < parts.len() && parts[k] == x;
        assert(!parts[k].contains('/'));
    }
}

/// Every component of `p` is non-empty and free of `/`.
pub proof fn lemma_components_nonempty(p: Seq<char>)
    ensures
        forall|i: int| 0 <= i < components(p).len() ==> (#[trigger] components(p)[i]).len() > 0
            && !components(p)[i].contains('/'),
{
    lemma_named_clean(p);
    crate::text::lemma_split_on_nonempty(p, '/');
    let named = named_parts(p);
    if split_on(p, '/')[0] == dot() {
        assert forall|i: int| 0 <= i < components(p).len() implies (#[trigger] components(p)[i]).len() > 0
            && !components(p)[i].contains('/') by {
            if i == 0 {
                assert(components(p)[0] == dot());
                assert(!dot().contains('/')) by {
                    if dot().contains('/') {
                        let k = choose|k: int| 0 <= k < dot().len() && dot()[k] == '/';
                    }
                }
            } else {
                assert(components(p)[i] == named[i - 1]);
            }
        }
    }
}

/// A text starting with the separator splits into an empty first piece
/// and more.
proof fn lemma_leading_separator(p: Seq<char>, c: char)
    requires
        p.len() > 0,
        p[0] == c,
    ensures
        split_on(p, c).len() >= 2,
        split_on(p, c)[0] == Seq::<char>::empty(),
    decreases p.len(),
{
    if p.len() == 1 {
        assert(p.drop_last() =~= Seq::<char>::empty());
        assert(split_on(p.drop_last(), c) =~= seq![Seq::<char>::empty()]);
    } else {
        assert(p.drop_last()[0] == c);
        lemma_leading_separator(p.drop_last(), c);
    }
}

/// The components of a rooted path are components free of `/`.
proof fn lemma_components_clean(p: Seq<char>)
    requires
        is_rooted(p),
    ensures
        forall|i: int| 0 <= i < components(p).len() ==> is_component(#[trigger] components(p)[i])
            && !components(p)[i].contains('/'),
{
    lemma_leading_separator(p, '/');
    assert(Seq::<char>::empty() != dot()) by {
        assert(dot().len() == 1);
    }
    lemma_named_clean(p);
}

/// The components of components joined with `/` are those components.
proof fn lemma_components_join(cs: Seq<Seq<char>>)
    requires
        forall|i: int| 0 <= i < cs.len() ==> is_component(#[trigger] cs[i]) && !cs[i].contains('/'),
    ensures
        components(join(cs, seq!['/'])) == cs,
        cs.len() > 0 ==> join(cs, seq!['/']).len() > 0 && join(cs, seq!['/'])[0] == cs[0][0],
        !is_rooted(join(cs, seq!['/'])),
    decreases cs.len(),
{
    reveal(Seq::filter);
    if cs.len() == 0 {
        assert(join(cs, seq!['/']) == Seq::<char>::empty());
        assert(split_on(Seq::<char>::empty(), '/') =~= seq![Seq::<char>::empty()]);
        let one = seq![Seq::<char>::empty()];
        assert(one.drop_last() =~= Seq::<Seq<char>>::empty());
        assert(one.last() == Seq::<char>::empty());
        assert(!is_component(Seq::<char>::empty()));
        assert(Seq::<Seq<char>>::empty().filter(|c: Seq<char>| is_component(c)) =~= Seq::<Seq<char>>::empty());
        assert(one.filter(|c: Seq<char>| is_component(c)) =~= Seq::<Seq<char>>::empty());
        assert(components(join(cs, seq!['/'])) =~= cs);
    } else {
        lemma_split_join(cs, '/');
        lemma_filter_keeps_all(cs, |c: Seq<char>| is_component(c));
        if cs.len() > 1 {
            let init = cs.drop_last();
            assert forall|i: int| 0 <= i < init.len() implies is_component(#[trigger] init[i])
                && !init[i].contains('/') by {
                assert(init[i] == cs[i]);
            }
            lemma_components_join(init);
            assert(init[0] == cs[0]);
            assert(join(cs, seq!['/']) == join(init, seq!['/']) + seq!['/'] + cs.last());
        }
        assert(cs[0].len() > 0);
        assert(cs[0][0] != '/') by {
            if cs[0][0] == '/' {
                assert(cs[0].contains('/'));
            }
        }
    }
}

/// Stripping an absolute base from a path: it succeeds exactly when the
/// path is absolute and its components start with the base's; the rest is
/// a relative path whose components, after the base's, are the path's.
pub proof fn lemma_strip_prefix_rejoins(p: Seq<char>, base: Seq<char>)
    requires
        is_rooted(base),
    ensures
        strip_prefix_path(p, base) is Some <==> (is_rooted(p) && components(base).len() <= components(
            p,
        ).len() && components(p).subrange(0, components(base).len() as int) == components(base)),
        strip_prefix_path(p, base) matches Some(r) ==> !is_rooted(r) && components(base)
            + components(r) == components(p),
{
    if let Some(r) = strip_prefix_path(p, base) {
        let pp = components(p);
        let pb = components(base);
        let rest = pp.subrange(pb.len() as int, pp.len() as int);
        lemma_components_clean(p);
        assert forall|i: int| 0 <= i < rest.len() implies is_component(#[trigger] rest[i])
            && !rest[i].contains('/') by {
            assert(rest[i] == pp[i + pb.len()]);
        }
        lemma_components_join(rest);
        assert(pb + rest =~= pp);
    }
}

} // verus!
