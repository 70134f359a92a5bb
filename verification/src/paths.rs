//! Paths held as text: their components, file name and extension, and the order
//! in which paths compare, as `std::path::Path` has them on Unix.
use vstd::prelude::*;

use crate::text::{lacks, views, lemma_views_push};

verus! {

/// Parts of `s` between occurrences of `sep`, completed so far, and the open part.
pub open spec fn split_state(s: Seq<char>, sep: char) -> (Seq<Seq<char>>, Seq<char>)
    decreases s.len(),
{
    if s.len() == 0 {
        (seq![], seq![])
    } else {
        let (done, cur) = split_state(s.drop_last(), sep);
        if s.last() == sep {
            (done.push(cur), seq![])
        } else {
            (done, cur.push(s.last()))
        }
    }
}

/// The parts of `s` between occurrences of `sep`, as `str::split` yields them
/// (always at least one part).
pub open spec fn split(s: Seq<char>, sep: char) -> Seq<Seq<char>> {
    let (done, cur) = split_state(s, sep);
    done.push(cur)
}

/// Tags that open the text of a path component, in the order `std::path::Component`
/// compares its variants.
pub open spec fn root_tag() -> char {
    '\u{1}'
}

pub open spec fn cur_tag() -> char {
    '\u{2}'
}

pub open spec fn parent_tag() -> char {
    '\u{3}'
}

pub open spec fn normal_tag() -> char {
    '\u{4}'
}

/// The component that a part between separators gives, if any: empty parts and `.`
/// give none, `..` gives the parent component, any other part a normal one.
pub open spec fn component_of(part: Seq<char>) -> Option<Seq<char>> {
    if part.len() == 0 || part == seq!['.'] {
        None
    } else if part == seq!['.', '.'] {
        Some(seq![parent_tag()])
    } else {
        Some(seq![normal_tag()] + part)
    }
}

pub open spec fn components_of_parts(parts: Seq<Seq<char>>) -> Seq<Seq<char>>
    decreases parts.len(),
{
    if parts.len() == 0 {
        seq![]
    } else {
        let c = components_of_parts(parts.drop_last());
        match component_of(parts.last()) {
            Some(x) => c.push(x),
            None => c,
        }
    }
}

/// The components of a path, each a tag followed by the component's text: a leading `/`
/// gives the root, a leading `.` part the current directory, and then each part gives
/// the component that `component_of` says.
pub open spec fn path_components(p: Seq<char>) -> Seq<Seq<char>> {
    let parts = split(p, '/');
    if p.len() > 0 && p[0] == '/' {
        seq![seq![root_tag()]] + components_of_parts(parts)
    } else if parts[0] == seq!['.'] {
        seq![seq![cur_tag()]] + components_of_parts(parts.drop_first())
    } else {
        components_of_parts(parts)
    }
}

/// The last component of a path, when it is a normal one.
pub open spec fn file_name(p: Seq<char>) -> Option<Seq<char>> {
    let cs = path_components(p);
    if cs.len() > 0 && cs.last().len() > 0 && cs.last()[0] == normal_tag() {
        Some(cs.last().drop_first())
    } else {
        None
    }
}

/// Index of the last `.` in `s`.
pub open spec fn last_dot(s: Seq<char>) -> Option<nat>
    decreases s.len(),
{
    if s.len() == 0 {
        None
    } else if s.last() == '.' {
        Some((s.len() - 1) as nat)
    } else {
        last_dot(s.drop_last())
    }
}

/// The extension of a path: the text after the last `.` of its file name, unless that
/// `.` is the name's first character.
pub open spec fn extension(p: Seq<char>) -> Option<Seq<char>> {
    match file_name(p) {
        Some(n) => match last_dot(n) {
            Some(k) => if k > 0 {
                Some(n.skip(k as int + 1))
            } else {
                None
            },
            None => None,
        },
        None => None,
    }
}

/// Whether a path names a C header (its extension is `h`).
pub open spec fn spec_is_header(p: Seq<char>) -> bool {
    extension(p) == Some(seq!['h'])
}

/// The parts of `v` between occurrences of `sep`.
pub fn split_chars(v: &Vec<char>, sep: char) -> (r: Vec<Vec<char>>)
    ensures
        views(r@) == split(v@, sep),
        r@.len() > 0,
{
    let mut done: Vec<Vec<char>> = Vec::new();
    let mut cur: Vec<char> = Vec::new();
    let mut i: usize = 0;
    while i < v.len()
        invariant
            i <= v.len(),
            (views(done@), cur@) == split_state(v@.take(i as int), sep),
        decreases v.len() - i,
    {
        assert(v@.take(i + 1).drop_last() =~= v@.take(i as int));
        let c = v[i];
        if c == sep {
            proof {
                lemma_views_push(done@, cur);
            }
            done.push(cur);
            cur = Vec::new();
        } else {
            cur.push(c);
        }
        i += 1;
    }
    assert(v@.take(v@.len() as int) =~= v@);
    proof {
        lemma_views_push(done@, cur);
    }
    done.push(cur);
    done
}

fn component_chars(part: &Vec<char>) -> (r: Option<Vec<char>>)
    ensures
        match r {
            Some(c) => component_of(part@) == Some(c@),
            None => component_of(part@) is None,
        },
{
    if part.len() == 0 || (part.len() == 1 && part[0] == '.') {
        assert(part.len() == 1 ==> part@ =~= seq!['.']);
        None
    } else if part.len() == 2 && part[0] == '.' && part[1] == '.' {
        assert(part@ =~= seq!['.', '.']);
        let mut c: Vec<char> = Vec::new();
        c.push('\u{3}');
        assert(c@ =~= seq![parent_tag()]);
        Some(c)
    } else {
        assert(part@ != seq!['.']);
        assert(part@ != seq!['.', '.']);
        let mut c: Vec<char> = Vec::new();
        c.push('\u{4}');
        let mut i: usize = 0;
        while i < part.len()
            invariant
                i <= part.len(),
                c@ == seq![normal_tag()] + part@.take(i as int),
            decreases part.len() - i,
        {
            c.push(part[i]);
            assert(part@.take(i + 1) =~= part@.take(i as int).push(part@[i as int]));
            assert(c@ =~= seq![normal_tag()] + part@.take(i + 1));
            i += 1;
        }
        assert(part@.take(part@.len() as int) =~= part@);
        Some(c)
    }
}

/// The components of the path `p`, tagged as `path_components` states.
pub fn components(p: &Vec<char>) -> (r: Vec<Vec<char>>)
    ensures
        views(r@) == path_components(p@),
{
    let parts = split_chars(p, '/');
    let mut out: Vec<Vec<char>> = Vec::new();
    let mut first: usize = 0;
    let ghost lead: Seq<Seq<char>> = seq![];
    if p.len() > 0 && p[0] == '/' {
        let mut c: Vec<char> = Vec::new();
        c.push('\u{1}');
        proof {
            lemma_views_push(out@, c);
            lead = seq![seq![root_tag()]];
        }
        out.push(c);
    } else if parts[0].len() == 1 && parts[0][0] == '.' {
        assert(views(parts@)[0] =~= seq!['.']);
        let mut c: Vec<char> = Vec::new();
        c.push('\u{2}');
        proof {
            lemma_views_push(out@, c);
            lead = seq![seq![cur_tag()]];
        }
        out.push(c);
        first = 1;
    } else {
        assert(views(parts@)[0].len() == 1 ==> views(parts@)[0] != seq!['.']);
    }
    assert(views(out@) =~= lead);
    let ghost ps = views(parts@).skip(first as int);
    assert(ps =~= if first == 1 { views(parts@).drop_first() } else { views(parts@) });
    let mut i = first;
    while i < parts.len()
        invariant
            first <= i <= parts.len(),
            ps == views(parts@).skip(first as int),
            views(out@) == lead + components_of_parts(ps.take(i - first)),
        decreases parts.len() - i,
    {
        assert(ps.take(i + 1 - first).drop_last() =~= ps.take(i - first));
        assert(ps[i - first] == parts@[i as int]@);
        match component_chars(&parts[i]) {
            Some(c) => {
                proof {
                    lemma_views_push(out@, c);
                }
                out.push(c);
            },
            None => {},
        }
        i += 1;
    }
    assert(ps.take(parts.len() - first) =~= ps);
    out
}

/// The extension of the path `p`, as `extension` states.
pub fn extension_of(p: &str) -> (r: Option<Vec<char>>)
    ensures
        match r {
            Some(e) => extension(p@) == Some(e@),
            None => extension(p@) is None,
        },
{
    let v = crate::text::chars_of(p);
    let cs = components(&v);
    if cs.len() == 0 {
        return None;
    }
    let last = &cs[cs.len() - 1];
    assert(views(cs@).last() == last@);
    if last.len() == 0 || last[0] != '\u{4}' {
        return None;
    }
    let ghost name = last@.drop_first();
    let mut j = last.len();
    assert(name.take(j - 1) =~= name);
    while j > 1 && last[j - 1] != '.'
        invariant
            1 <= j <= last.len(),
            name == last@.drop_first(),
            last_dot(name) == last_dot(name.take(j - 1)),
        decreases j,
    {
        assert(name.take(j - 1).drop_last() =~= name.take(j - 2));
        j -= 1;
    }
    if j <= 2 {
        if j == 2 {
            assert(name.take(1).last() == '.');
        } else {
            assert(name.take(0) =~= Seq::<char>::empty());
        }
        return None;
    }
    assert(name.take(j - 1).last() == '.');
    assert(last_dot(name) == Some((j - 2) as nat));
    let e = crate::text::sub_chars(last, j, last.len());
    assert(name.skip(j - 1) =~= e@);
    Some(e)
}

/// Whether the path `p` names a C header (its extension is `h`).
pub fn is_header(p: &str) -> (r: bool)
    ensures
        r == spec_is_header(p@),
{
    let h: &[char] = &['h'];
    assert(h@ =~= seq!['h']);
    match extension_of(p) {
        Some(e) => crate::text::eq_chars(e.as_slice(), h),
        None => false,
    }
}

/// Whether the path `p` names a C source or header (its extension is `c` or `h`).
pub fn is_c_source(p: &str) -> (r: bool)
    ensures
        r == (extension(p@) == Some(seq!['c']) || extension(p@) == Some(seq!['h'])),
{
    let c: &[char] = &['c'];
    let h: &[char] = &['h'];
    assert(c@ =~= seq!['c']);
    assert(h@ =~= seq!['h']);
    match extension_of(p) {
        Some(e) => crate::text::eq_chars(e.as_slice(), c) || crate::text::eq_chars(e.as_slice(), h),
        None => false,
    }
}

/// Whether the path `p` names a Markdown page (its extension is `md`).
pub fn is_markdown(p: &str) -> (r: bool)
    ensures
        r == (extension(p@) == Some(seq!['m', 'd'])),
{
    let md: &[char] = &['m', 'd'];
    assert(md@ =~= seq!['m', 'd']);
    match extension_of(p) {
        Some(e) => crate::text::eq_chars(e.as_slice(), md),
        None => false,
    }
}

/// Whether `root`'s components begin the components of `p` (`Path::starts_with`).
pub open spec fn spec_path_within(root: Seq<char>, p: Seq<char>) -> bool {
    let a = path_components(root);
    let b = path_components(p);
    a.len() <= b.len() && b.take(a.len() as int) == a
}

/// Whether the path `p` lies under `root`, whole components compared (`Path::starts_with`).
pub fn path_within(root: &str, p: &str) -> (r: bool)
    ensures
        r == spec_path_within(root@, p@),
{
    let rv = crate::text::chars_of(root);
    let pv = crate::text::chars_of(p);
    let a = components(&rv);
    let b = components(&pv);
    assert(views(a@) == path_components(root@));
    assert(views(b@) == path_components(p@));
    if a.len() > b.len() {
        return false;
    }
    let mut i: usize = 0;
    while i < a.len()
        invariant
            i <= a@.len(),
            a@.len() <= b@.len(),
            views(a@) == path_components(root@),
            views(b@) == path_components(p@),
            forall|k: int| 0 <= k < i ==> views(a@)[k] == views(b@)[k],
        decreases a@.len() - i,
    {
        if !crate::text::eq_chars(a[i].as_slice(), b[i].as_slice()) {
            assert(views(b@).take(a@.len() as int)[i as int] != views(a@)[i as int]);
            return false;
        }
        i += 1;
    }
    assert(views(b@).take(a@.len() as int) =~= views(a@));
    true
}

pub proof fn lemma_split_state_len(s: Seq<char>, sep: char)
    ensures
        split_state(s, sep).1.len() <= s.len(),
        forall|i: int| 0 <= i < split_state(s, sep).0.len() ==> #[trigger] split_state(s, sep).0[i].len() <= s.len(),
    decreases s.len(),
{
    if s.len() > 0 {
        lemma_split_state_len(s.drop_last(), sep);
    }
}

pub proof fn lemma_components_of_parts_len(parts: Seq<Seq<char>>, bound: int)
    requires
        forall|i: int| 0 <= i < parts.len() ==> #[trigger] parts[i].len() <= bound,
    ensures
        forall|i: int| 0 <= i < components_of_parts(parts).len() ==> #[trigger] components_of_parts(parts)[i].len() <= bound + 1,
    decreases parts.len(),
{
    if parts.len() > 0 {
        assert forall|i: int| 0 <= i < parts.drop_last().len() implies #[trigger] parts.drop_last()[i].len() <= bound by {
            assert(parts.drop_last()[i] == parts[i]);
        }
        lemma_components_of_parts_len(parts.drop_last(), bound);
        assert(parts.last().len() <= bound);
        let c = components_of_parts(parts.drop_last());
        match component_of(parts.last()) {
            Some(x) => {
                assert(x.len() <= bound + 1);
                assert(components_of_parts(parts) == c.push(x));
                assert forall|i: int| 0 <= i < c.push(x).len() implies #[trigger] c.push(x)[i].len() <= bound + 1 by {
                    if i < c.len() {
                        assert(c.push(x)[i] == c[i]);
                    }
                }
            },
            None => {},
        }
    }
}

/// No component of a path is longer than the path with its tag.
pub proof fn lemma_path_components_len(p: Seq<char>)
    ensures
        forall|i: int| 0 <= i < path_components(p).len() ==> #[trigger] path_components(p)[i].len() <= p.len() + 1,
{
    lemma_split_state_len(p, '/');
    let parts = split(p, '/');
    assert forall|i: int| 0 <= i < parts.len() implies #[trigger] parts[i].len() <= p.len() by {}
    lemma_components_of_parts_len(parts, p.len() as int);
    assert forall|i: int| 0 <= i < parts.drop_first().len() implies #[trigger] parts.drop_first()[i].len() <= p.len() by {
        assert(parts.drop_first()[i] == parts[i + 1]);
    }
    lemma_components_of_parts_len(parts.drop_first(), p.len() as int);
    let cs = path_components(p);
    if p.len() > 0 && p[0] == '/' {
        assert forall|i: int| 0 <= i < cs.len() implies #[trigger] cs[i].len() <= p.len() + 1 by {
            if i > 0 {
                assert(cs[i] == components_of_parts(parts)[i - 1]);
            }
        }
    } else if parts[0] == seq!['.'] {
        assert forall|i: int| 0 <= i < cs.len() implies #[trigger] cs[i].len() <= p.len() + 1 by {
            if i > 0 {
                assert(cs[i] == components_of_parts(parts.drop_first())[i - 1]);
            }
        }
    }
}

proof fn lemma_split_state_lacks(s: Seq<char>, sep: char)
    ensures
        forall|i: int| 0 <= i < split_state(s, sep).0.len() ==> lacks(#[trigger] split_state(s, sep).0[i], sep),
        lacks(split_state(s, sep).1, sep),
    decreases s.len(),
{
    if s.len() > 0 {
        lemma_split_state_lacks(s.drop_last(), sep);
        let (done, cur) = split_state(s.drop_last(), sep);
        if s.last() == sep {
            assert forall|i: int| 0 <= i < done.push(cur).len() implies lacks(#[trigger] done.push(cur)[i], sep) by {
                if i < done.len() {
                    assert(done.push(cur)[i] == done[i]);
                }
            }
        } else {
            assert forall|i: int| 0 <= i < cur.push(s.last()).len() implies cur.push(s.last())[i] != sep by {
                if i < cur.len() {
                    assert(cur.push(s.last())[i] == cur[i]);
                }
            }
        }
    }
}

/// No part that `split` gives holds the separator.
pub proof fn lemma_split_lacks(s: Seq<char>, sep: char)
    ensures
        forall|i: int| 0 <= i < split(s, sep).len() ==> lacks(#[trigger] split(s, sep)[i], sep),
{
    lemma_split_state_lacks(s, sep);
    let (done, cur) = split_state(s, sep);
    assert forall|i: int| 0 <= i < done.push(cur).len() implies lacks(#[trigger] done.push(cur)[i], sep) by {
        if i < done.len() {
            assert(done.push(cur)[i] == done[i]);
        }
    }
}

/// A component of a relative path: the current directory, the parent, or a normal one, its
/// text free of `/`.
pub open spec fn relative_component(c: Seq<char>) -> bool {
    &&& c.len() > 0
    &&& (c[0] == cur_tag() || c[0] == parent_tag() || c[0] == normal_tag())
    &&& lacks(c.drop_first(), '/')
}

proof fn lemma_components_of_parts_relative(parts: Seq<Seq<char>>)
    requires
        forall|i: int| 0 <= i < parts.len() ==> lacks(#[trigger] parts[i], '/'),
    ensures
        forall|i: int| 0 <= i < components_of_parts(parts).len() ==> relative_component(#[trigger] components_of_parts(parts)[i]),
    decreases parts.len(),
{
    if parts.len() > 0 {
        assert forall|i: int| 0 <= i < parts.drop_last().len() implies lacks(#[trigger] parts.drop_last()[i], '/') by {
            assert(parts.drop_last()[i] == parts[i]);
        }
        lemma_components_of_parts_relative(parts.drop_last());
        let c = components_of_parts(parts.drop_last());
        let part = parts.last();
        assert(lacks(part, '/'));
        match component_of(part) {
            Some(x) => {
                if part == seq!['.', '.'] {
                    assert(x.drop_first() =~= Seq::<char>::empty());
                } else {
                    assert(x.drop_first() =~= part);
                }
                assert(relative_component(x));
                assert forall|i: int| 0 <= i < c.push(x).len() implies relative_component(#[trigger] c.push(x)[i]) by {
                    if i < c.len() {
                        assert(c.push(x)[i] == c[i]);
                    }
                }
            },
            None => {},
        }
    }
}

/// Every component of a path that does not begin with `/` is a relative one.
pub proof fn lemma_relative_path_components(p: Seq<char>)
    requires
        !(p.len() > 0 && p[0] == '/'),
    ensures
        forall|i: int| 0 <= i < path_components(p).len() ==> relative_component(#[trigger] path_components(p)[i]),
{
    lemma_split_lacks(p, '/');
    let parts = split(p, '/');
    lemma_components_of_parts_relative(parts);
    assert forall|i: int| 0 <= i < parts.drop_first().len() implies lacks(#[trigger] parts.drop_first()[i], '/') by {
        assert(parts.drop_first()[i] == parts[i + 1]);
    }
    lemma_components_of_parts_relative(parts.drop_first());
    let cs = path_components(p);
    if parts[0] == seq!['.'] {
        let rest = components_of_parts(parts.drop_first());
        assert(seq![cur_tag()].drop_first() =~= Seq::<char>::empty());
        assert forall|i: int| 0 <= i < cs.len() implies relative_component(#[trigger] cs[i]) by {
            if i > 0 {
                assert(cs[i] == rest[i - 1]);
            }
        }
    }
}

/// `last_dot` gives an index inside the text.
pub proof fn lemma_last_dot(s: Seq<char>)
    ensures
        last_dot(s) matches Some(k) ==> k < s.len(),
    decreases s.len(),
{
    if s.len() > 0 {
        lemma_last_dot(s.drop_last());
    }
}

} // verus!
