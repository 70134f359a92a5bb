//! Doxygen-style comments: recognising them and parsing them into a [`DocComment`].
use vstd::prelude::*;

use crate::model::{DocComment, ParamDoc, SpecDocComment, SpecParamDoc};
use crate::text::{
    after_first_word, chars_of, ends_with, eq_chars, extend_chars, find_char, find_char_in, lemma_find_char, lemma_views_push,
    first_word, join, join_chars, lines, lines_of, starts_with, starts_with_at, ends_with_at,
    string_of, string_of_range, sub_chars, trim, trim_end_matches, trim_indices, views,
    word_len, word_len_in, is_ws, trim_start, trim_end, lemma_word_len_unique,
};

verus! {

/// Markers that open a comment documenting what follows it.
pub open spec fn doc_markers() -> Seq<Seq<char>> {
    seq![seq!['/', '*', '*'], seq!['/', '*', '!'], seq!['/', '/', '/'], seq!['/', '/', '!']]
}

/// Markers that open a comment documenting what precedes it (`int x; /**< X. */`).
pub open spec fn trailing_markers() -> Seq<Seq<char>> {
    seq![
        seq!['/', '*', '*', '<'],
        seq!['/', '*', '!', '<'],
        seq!['/', '/', '/', '<'],
        seq!['/', '/', '!', '<'],
    ]
}

/// Whether `t` begins with one of `markers`.
pub open spec fn starts_with_any(t: Seq<char>, markers: Seq<Seq<char>>) -> bool {
    exists|i: int| 0 <= i < markers.len() && starts_with(t, #[trigger] markers[i])
}

pub open spec fn spec_is_doc_comment(t: Seq<char>) -> bool {
    starts_with_any(t, doc_markers())
}

pub open spec fn spec_is_trailing_marker(t: Seq<char>) -> bool {
    starts_with_any(t, trailing_markers())
}

/// Whether `v[lo..hi]` begins with `markers[k]` for some `k` in `0..4`, where
/// `markers` are the four markers `m0..m3`.
fn starts_with_one_of(
    v: &Vec<char>,
    lo: usize,
    hi: usize,
    m0: &[char],
    m1: &[char],
    m2: &[char],
    m3: &[char],
) -> (r: bool)
    requires
        lo <= hi <= v.len(),
    ensures
        r == starts_with_any(v@.subrange(lo as int, hi as int), seq![m0@, m1@, m2@, m3@]),
{
    let ghost t = v@.subrange(lo as int, hi as int);
    let ghost ms = seq![m0@, m1@, m2@, m3@];
    let r = starts_with_at(v, lo, hi, m0) || starts_with_at(v, lo, hi, m1) || starts_with_at(
        v,
        lo,
        hi,
        m2,
    ) || starts_with_at(v, lo, hi, m3);
    proof {
        if r {
            if starts_with(t, m0@) {
                assert(starts_with(t, ms[0]));
            } else if starts_with(t, m1@) {
                assert(starts_with(t, ms[1]));
            } else if starts_with(t, m2@) {
                assert(starts_with(t, ms[2]));
            } else {
                assert(starts_with(t, ms[3]));
            }
        } else {
            assert forall|i: int| 0 <= i < ms.len() implies !starts_with(t, #[trigger] ms[i]) by {
                if i == 0 {
                    assert(ms[i] == m0@);
                } else if i == 1 {
                    assert(ms[i] == m1@);
                } else if i == 2 {
                    assert(ms[i] == m2@);
                } else {
                    assert(ms[i] == m3@);
                }
            }
        }
    }
    r
}

/// Whether `text` is a Doxygen-style comment (either the usual form documenting whatever
/// follows it, or the trailing `/**<`-style form documenting whatever precedes it).
pub fn is_doc_comment(text: &str) -> (r: bool)
    ensures
        r == spec_is_doc_comment(text@),
{
    let v = chars_of(text);
    let r = starts_with_one_of(
        &v,
        0,
        v.len(),
        &['/', '*', '*'],
        &['/', '*', '!'],
        &['/', '/', '/'],
        &['/', '/', '!'],
    );
    assert(v@.subrange(0, v@.len() as int) =~= v@);
    r
}

/// Whether `text` uses the trailing marker form (`/**<`, `/*!<`, `///<`, `//!<`) that documents
/// the item immediately *before* the comment rather than the one after it — the idiom used for
/// inline struct field and enum variant docs, e.g. `int x; /**< X coordinate. */`.
pub fn is_trailing_marker(text: &str) -> (r: bool)
    ensures
        r == spec_is_trailing_marker(text@),
{
    let v = chars_of(text);
    let r = starts_with_one_of(
        &v,
        0,
        v.len(),
        &['/', '*', '*', '<'],
        &['/', '*', '!', '<'],
        &['/', '/', '/', '<'],
        &['/', '/', '!', '<'],
    );
    assert(v@.subrange(0, v@.len() as int) =~= v@);
    r
}

/// The first of the trailing markers, then of the leading markers, that `s` begins with.
pub open spec fn opening_marker(s: Seq<char>) -> Option<Seq<char>> {
    let ms = trailing_markers() + doc_markers();
    if exists|i: int| 0 <= i < ms.len() && starts_with(s, #[trigger] ms[i]) {
        let i = choose|i: int|
            0 <= i < ms.len() && starts_with(s, #[trigger] ms[i]) && forall|j: int|
                0 <= j < i ==> !starts_with(s, #[trigger] ms[j]);
        Some(ms[i])
    } else {
        None
    }
}

/// `s` without its opening marker, if it has one.
pub open spec fn after_opening_marker(s: Seq<char>) -> Seq<char> {
    match opening_marker(s) {
        Some(m) => s.skip(m.len() as int),
        None => s,
    }
}

/// One line of a comment body with its `*` decoration removed.
pub open spec fn clean_line(l: Seq<char>) -> Seq<char> {
    let t = trim(l);
    if t.len() > 0 && t[0] == '*' {
        trim(t.drop_first())
    } else {
        t
    }
}

pub open spec fn clean_lines(ls: Seq<Seq<char>>) -> Seq<Seq<char>> {
    Seq::new(ls.len(), |i: int| clean_line(ls[i]))
}

/// The text of a comment without its delimiters and per-line leading `*` decoration.
pub open spec fn spec_strip_markers(raw: Seq<char>) -> Seq<char> {
    let body = trim_end_matches(after_opening_marker(trim(raw)), seq!['*', '/']);
    join(clean_lines(lines(body)), seq!['\n'])
}

proof fn lemma_opening_marker(s: Seq<char>, k: int)
    requires
        0 <= k < 8,
        starts_with(s, (trailing_markers() + doc_markers())[k]),
        forall|j: int| 0 <= j < k ==> !starts_with(s, #[trigger] (trailing_markers() + doc_markers())[j]),
    ensures
        opening_marker(s) == Some((trailing_markers() + doc_markers())[k]),
{
    let ms = trailing_markers() + doc_markers();
    assert(starts_with(s, ms[k]));
    let i = choose|i: int|
        0 <= i < ms.len() && starts_with(s, #[trigger] ms[i]) && forall|j: int|
            0 <= j < i ==> !starts_with(s, #[trigger] ms[j]);
    assert(i == k) by {
        if i < k {
            assert(!starts_with(s, ms[i]));
        }
        if k < i {
            assert(!starts_with(s, ms[k]));
        }
    }
}

/// Bounds of the comment body of `v` once the surrounding whitespace, the opening marker
/// and the trailing `*/` are taken off.
fn marker_free_bounds(v: &Vec<char>) -> (r: (usize, usize))
    ensures
        r.0 <= r.1 <= v.len(),
        v@.subrange(r.0 as int, r.1 as int) == trim_end_matches(
            after_opening_marker(trim(v@)),
            seq!['*', '/'],
        ),
{
    let (a, b) = trim_indices(v, 0, v.len());
    assert(v@.subrange(0, v@.len() as int) =~= v@);
    let ghost t = v@.subrange(a as int, b as int);
    let ghost ms = trailing_markers() + doc_markers();
    let markers: [&[char]; 8] = [
        &['/', '*', '*', '<'],
        &['/', '*', '!', '<'],
        &['/', '/', '/', '<'],
        &['/', '/', '!', '<'],
        &['/', '*', '*'],
        &['/', '*', '!'],
        &['/', '/', '/'],
        &['/', '/', '!'],
    ];
    assert(markers@.len() == 8);
    assert forall|j: int| 0 <= j < 8 implies #[trigger] markers@[j]@ == ms[j] by {
        assert(markers@[j]@ == ms[j]);
    }
    let mut k: usize = 0;
    while k < 8 && !starts_with_at(v, a, b, markers[k])
        invariant
            k <= 8,
            a <= b <= v.len(),
            t == v@.subrange(a as int, b as int),
            ms == trailing_markers() + doc_markers(),
            markers@.len() == 8,
            forall|j: int| 0 <= j < 8 ==> #[trigger] markers@[j]@ == ms[j],
            forall|j: int| 0 <= j < k ==> !starts_with(t, #[trigger] ms[j]),
        decreases 8 - k,
    {
        k += 1;
    }
    let start = if k < 8 {
        proof {
            lemma_opening_marker(t, k as int);
            assert(t.skip(markers@[k as int]@.len() as int) =~= v@.subrange(
                a + markers@[k as int]@.len(),
                b as int,
            ));
        }
        a + markers[k].len()
    } else {
        assert(!(exists|i: int| 0 <= i < ms.len() && starts_with(t, #[trigger] ms[i])));
        a
    };
    let ghost body0 = v@.subrange(start as int, b as int);
    assert(body0 == after_opening_marker(t));
    let mut end = b;
    while ends_with_at(v, start, end, &['*', '/'])
        invariant
            start <= end <= b <= v.len(),
            trim_end_matches(body0, seq!['*', '/']) == trim_end_matches(
                v@.subrange(start as int, end as int),
                seq!['*', '/'],
            ),
        decreases end - start,
    {
        assert(v@.subrange(start as int, end as int).subrange(0, end - start - 2) =~= v@.subrange(
            start as int,
            end - 2,
        ));
        end = end - 2;
    }
    (start, end)
}

/// `clean_line` of `line`.
fn clean_line_chars(line: &Vec<char>) -> (r: Vec<char>)
    ensures
        r@ == clean_line(line@),
{
    let (a, b) = trim_indices(line, 0, line.len());
    assert(line@.subrange(0, line@.len() as int) =~= line@);
    if a < b && line[a] == '*' {
        let (c0, c1) = trim_indices(line, a + 1, b);
        assert(line@.subrange(a as int, b as int).drop_first() =~= line@.subrange(a + 1, b as int));
        sub_chars(line, c0, c1)
    } else {
        sub_chars(line, a, b)
    }
}

/// Strip comment delimiters (`/** */` or `///`, including the trailing-marker `<` variants) and
/// per-line leading `*` decoration.
fn strip_markers(v: &Vec<char>) -> (r: Vec<char>)
    ensures
        r@ == spec_strip_markers(v@),
{
    let (s, e) = marker_free_bounds(v);
    let body = sub_chars(v, s, e);
    let ls = lines_of(&body);
    let mut cleaned: Vec<Vec<char>> = Vec::new();
    let mut i: usize = 0;
    while i < ls.len()
        invariant
            i <= ls.len(),
            views(cleaned@) == clean_lines(views(ls@)).take(i as int),
        decreases ls.len() - i,
    {
        let c = clean_line_chars(&ls[i]);
        proof {
            lemma_views_push(cleaned@, c);
            assert(clean_lines(views(ls@)).take(i + 1) =~= clean_lines(views(ls@)).take(
                i as int,
            ).push(c@));
        }
        cleaned.push(c);
        i += 1;
    }
    assert(clean_lines(views(ls@)).take(ls.len() as int) =~= clean_lines(views(ls@)));
    assert(views(cleaned@) == clean_lines(lines(body@)));
    let sep: &[char] = &['\n'];
    assert(sep@ =~= seq!['\n']);
    join_chars(&cleaned, sep)
}

pub open spec fn lit_param() -> Seq<char> {
    seq!['p', 'a', 'r', 'a', 'm']
}

pub open spec fn lit_brief() -> Seq<char> {
    seq!['b', 'r', 'i', 'e', 'f']
}

pub open spec fn lit_return() -> Seq<char> {
    seq!['r', 'e', 't', 'u', 'r', 'n']
}

pub open spec fn lit_returns() -> Seq<char> {
    seq!['r', 'e', 't', 'u', 'r', 'n', 's']
}

pub open spec fn lit_see() -> Seq<char> {
    seq!['s', 'e', 'e']
}

pub open spec fn lit_sa() -> Seq<char> {
    seq!['s', 'a']
}

/// A tag and the text that belongs to it.
pub type SpecBlock = (Seq<char>, Seq<char>);

/// Blocks completed so far, then the open block's tag and body.
pub type BlockState = (Seq<SpecBlock>, Seq<char>, Seq<char>);

/// `param[`: a `@param` tag directly followed by a direction marker such as `[in]`.
pub open spec fn param_with_marker() -> Seq<char> {
    seq!['p', 'a', 'r', 'a', 'm', '[']
}

/// Length of the tag name at the start of `s`: its first word, except that `param` ends
/// at the `[` of a direction marker that follows it (`@param[in]`).
pub open spec fn tag_len(s: Seq<char>) -> nat {
    if starts_with(s, param_with_marker()) {
        5
    } else {
        word_len(s)
    }
}

/// Length of the tag name that starts at `v[lo]`, within `v[lo..hi]`.
fn tag_len_in(v: &Vec<char>, lo: usize, hi: usize) -> (r: usize)
    requires
        lo <= hi <= v.len(),
    ensures
        r == tag_len(v@.subrange(lo as int, hi as int)),
        lo + r <= hi,
{
    let p: &[char] = &['p', 'a', 'r', 'a', 'm', '['];
    assert(p@ =~= param_with_marker());
    if starts_with_at(v, lo, hi, p) {
        5
    } else {
        word_len_in(v, lo, hi)
    }
}

/// How one line of comment text changes the block state: a line starting with `@tag`
/// closes the open block and opens one for `tag` (the text after the tag name, trimmed,
/// is its body); a blank line closes a block that has
/// text and reverts to untagged text; any other line is appended to the open block.
pub open spec fn step_line(st: BlockState, line: Seq<char>) -> BlockState {
    let (bs, tag, body) = st;
    let t = trim(line);
    if t.len() > 0 && t[0] == '@' {
        let rest = t.drop_first();
        let n = tag_len(rest) as int;
        (bs.push((tag, body)), rest.take(n), trim(rest.skip(n)))
    } else if t.len() == 0 {
        if body.len() > 0 {
            (bs.push((tag, body)), seq![], seq![])
        } else {
            (bs, seq![], body)
        }
    } else if body.len() > 0 {
        (bs, tag, body + seq![' '] + t)
    } else {
        (bs, tag, body + t)
    }
}

pub open spec fn block_state(ls: Seq<Seq<char>>) -> BlockState
    decreases ls.len(),
{
    if ls.len() == 0 {
        (seq![], seq![], seq![])
    } else {
        step_line(block_state(ls.drop_last()), ls.last())
    }
}

/// A tag's paragraph runs on over the lines that follow it: after the lines `ls`, a line
/// `@T x` (T a tag name, x its text) and then a non-blank line `y` that does not start with
/// `@` leave the block before them closed and one open block for `T` holding `x y`.
pub proof fn tag_paragraph_continues(ls: Seq<Seq<char>>, tag: Seq<char>, x: Seq<char>, l1: Seq<char>, l2: Seq<char>)
    requires
        tag.len() > 0,
        forall|j: int| 0 <= j < tag.len() ==> !is_ws(#[trigger] tag[j]) && tag[j] != '[',
        x.len() > 0,
        trim(x) == x,
        trim(l1) == seq!['@'] + tag + seq![' '] + x,
        trim(l2).len() > 0,
        trim(l2)[0] != '@',
    ensures
        ({
            let (bs, t0, b0) = block_state(ls);
            block_state(ls.push(l1).push(l2)) == (bs.push((t0, b0)), tag, x + seq![' '] + trim(l2))
        }),
{
    let st = block_state(ls);
    let ls1 = ls.push(l1);
    let ls2 = ls1.push(l2);
    assert(ls2.drop_last() =~= ls1);
    assert(ls1.drop_last() =~= ls);
    let t = trim(l1);
    assert(t[0] == '@');
    let rest = t.drop_first();
    assert(rest =~= tag + seq![' '] + x);
    assert(rest[tag.len() as int] == ' ');
    lemma_word_len_unique(rest, tag.len() as int);
    assert(!starts_with(rest, param_with_marker())) by {
        if starts_with(rest, param_with_marker()) {
            let k = if tag.len() < 6 { tag.len() as int } else { 5 };
            assert(rest.subrange(0, 6)[k] == param_with_marker()[k]);
            assert(rest[k] == param_with_marker()[k]);
        }
    }
    assert(tag_len(rest) == tag.len());
    assert(rest.take(tag.len() as int) =~= tag);
    let after = rest.skip(tag.len() as int);
    assert(after =~= seq![' '] + x);
    assert(trim_start(after) == trim_start(after.drop_first()));
    assert(after.drop_first() =~= x);
    assert(trim_start(x) == x) by {
        if x.len() > 0 && is_ws(x[0]) {
            lemma_trim_start_shorter(x.drop_first());
            assert(trim_end(trim_start(x)).len() <= trim_start(x).len()) by {
                lemma_trim_end_shorter(trim_start(x));
            }
        }
    }
    assert(trim(after) == x);
    assert(block_state(ls1) == step_line(st, l1));
    assert(block_state(ls2) == step_line(block_state(ls1), l2));
}

proof fn lemma_trim_start_shorter(s: Seq<char>)
    ensures
        trim_start(s).len() <= s.len(),
    decreases s.len(),
{
    if s.len() > 0 && is_ws(s[0]) {
        lemma_trim_start_shorter(s.drop_first());
    }
}

proof fn lemma_trim_end_shorter(s: Seq<char>)
    ensures
        trim_end(s).len() <= s.len(),
    decreases s.len(),
{
    if s.len() > 0 && is_ws(s.last()) {
        lemma_trim_end_shorter(s.drop_last());
    }
}

/// The tagged blocks of a marker-free comment text, in order.
pub open spec fn spec_blocks(text: Seq<char>) -> Seq<SpecBlock> {
    let (bs, tag, body) = block_state(lines(text));
    bs.push((tag, body))
}

/// The text of a `@param` block after an optional direction marker such as `[in]`.
pub open spec fn param_text(content: Seq<char>) -> Seq<char> {
    if content.len() > 0 && content[0] == '[' {
        let rest = content.drop_first();
        match find_char(rest, ']') {
            Some(k) => rest.skip(k as int + 1),
            None => rest,
        }
    } else {
        content
    }
}

pub open spec fn param_of(content: Seq<char>) -> SpecParamDoc {
    let t = trim(param_text(content));
    SpecParamDoc { name: first_word(t), description: trim(after_first_word(t)) }
}

pub open spec fn empty_doc() -> SpecDocComment {
    SpecDocComment {
        brief: None,
        description: None,
        params: seq![],
        returns: None,
        see_also: seq![],
    }
}

/// How one block contributes to the doc comment: untagged text gives the brief, then
/// paragraphs of the description; `@brief`, `@param`, `@return`/`@returns` and
/// `@see`/`@sa` fill their parts; other tags, and empty blocks but `@param`, are ignored.
pub open spec fn apply_block(d: SpecDocComment, tag: Seq<char>, content: Seq<char>) -> SpecDocComment {
    if content.len() == 0 && tag != lit_param() {
        d
    } else if tag.len() == 0 {
        if d.brief is None {
            SpecDocComment { brief: Some(content), ..d }
        } else {
            SpecDocComment {
                description: Some(
                    match d.description {
                        Some(e) => e + seq!['\n', '\n'] + content,
                        None => content,
                    },
                ),
                ..d
            }
        }
    } else if tag == lit_brief() {
        SpecDocComment { brief: Some(content), ..d }
    } else if tag == lit_param() {
        SpecDocComment { params: d.params.push(param_of(content)), ..d }
    } else if tag == lit_return() || tag == lit_returns() {
        SpecDocComment { returns: Some(content), ..d }
    } else if tag == lit_see() || tag == lit_sa() {
        SpecDocComment { see_also: d.see_also.push(content), ..d }
    } else {
        d
    }
}

pub open spec fn doc_of_blocks(bs: Seq<SpecBlock>) -> SpecDocComment
    decreases bs.len(),
{
    if bs.len() == 0 {
        empty_doc()
    } else {
        let (tag, content) = bs.last();
        apply_block(doc_of_blocks(bs.drop_last()), tag, content)
    }
}

/// The doc comment that a raw comment holds.
pub open spec fn spec_parse(raw: Seq<char>) -> SpecDocComment {
    doc_of_blocks(spec_blocks(spec_strip_markers(raw)))
}

pub open spec fn block_views(s: Seq<(Vec<char>, Vec<char>)>) -> Seq<SpecBlock> {
    Seq::new(s.len(), |i: int| (s[i].0@, s[i].1@))
}

/// The tagged blocks of `text`.
fn split_blocks(text: &Vec<char>) -> (r: Vec<(Vec<char>, Vec<char>)>)
    ensures
        block_views(r@) == spec_blocks(text@),
{
    let ls = lines_of(text);
    let mut bs: Vec<(Vec<char>, Vec<char>)> = Vec::new();
    let mut tag: Vec<char> = Vec::new();
    let mut body: Vec<char> = Vec::new();
    let mut i: usize = 0;
    while i < ls.len()
        invariant
            i <= ls.len(),
            views(ls@) == lines(text@),
            (block_views(bs@), tag@, body@) == block_state(views(ls@).take(i as int)),
        decreases ls.len() - i,
    {
        let ghost pre = views(ls@).take(i as int);
        assert(views(ls@).take(i + 1).drop_last() =~= pre);
        let line = &ls[i];
        let (a, b) = trim_indices(line, 0, line.len());
        assert(line@.subrange(0, line@.len() as int) =~= line@);
        let ghost t = line@.subrange(a as int, b as int);
        let ghost before = block_views(bs@);
        if a < b && line[a] == '@' {
            let ghost rest = t.drop_first();
            assert(rest =~= line@.subrange(a + 1, b as int));
            let k = tag_len_in(line, a + 1, b);
            let new_tag = sub_chars(line, a + 1, a + 1 + k);
            assert(new_tag@ =~= rest.take(k as int));
            let (c, d) = trim_indices(line, a + 1 + k, b);
            assert(rest.skip(k as int) =~= line@.subrange(a + 1 + k, b as int));
            let new_body = sub_chars(line, c, d);
            let ghost closed = (tag@, body@);
            bs.push((tag, body));
            assert(block_views(bs@) =~= before.push(closed));
            tag = new_tag;
            body = new_body;
        } else if a == b {
            if body.len() > 0 {
                let ghost closed = (tag@, body@);
                bs.push((tag, body));
                assert(block_views(bs@) =~= before.push(closed));
                tag = Vec::new();
                body = Vec::new();
            } else {
                tag = Vec::new();
            }
        } else {
            if body.len() > 0 {
                body.push(' ');
            }
            let ghost mid = body@;
            extend_chars(&mut body, sub_chars(line, a, b).as_slice());
            assert(body@ =~= mid + t);
        }
        i += 1;
    }
    assert(views(ls@).take(ls.len() as int) =~= views(ls@));
    let ghost before = block_views(bs@);
    let ghost last = (tag@, body@);
    bs.push((tag, body));
    assert(block_views(bs@) =~= before.push(last));
    bs
}

/// `param_text` of `c[lo..hi]`, as bounds within `c`.
fn param_text_bounds(c: &Vec<char>) -> (r: (usize, usize))
    ensures
        r.0 <= r.1 <= c.len(),
        c@.subrange(r.0 as int, r.1 as int) == param_text(c@),
{
    if c.len() > 0 && c[0] == '[' {
        let ghost rest = c@.drop_first();
        assert(rest =~= c@.subrange(1, c@.len() as int));
        match find_char_in(c, 1, c.len(), ']') {
            Some(k) => {
                proof {
                    lemma_find_char(rest, ']');
                }
                assert(rest.skip(k + 1) =~= c@.subrange(k + 2, c@.len() as int));
                (k + 2, c.len())
            },
            None => (1, c.len()),
        }
    } else {
        assert(c@.subrange(0, c@.len() as int) =~= c@);
        (0, c.len())
    }
}

/// The parameter entry that a `@param` block holds.
fn make_param(content: &Vec<char>) -> (r: ParamDoc)
    ensures
        r@ == param_of(content@),
{
    let (p0, p1) = param_text_bounds(content);
    let (t0, t1) = trim_indices(content, p0, p1);
    let ghost t = content@.subrange(t0 as int, t1 as int);
    let k = word_len_in(content, t0, t1);
    assert(first_word(t) =~= content@.subrange(t0 as int, t0 + k));
    let name = string_of_range(content, t0, t0 + k);
    let description = if t0 + k < t1 {
        let (d0, d1) = trim_indices(content, t0 + k + 1, t1);
        assert(after_first_word(t) =~= content@.subrange(t0 + k + 1, t1 as int));
        string_of_range(content, d0, d1)
    } else {
        assert(after_first_word(t) =~= seq![]);
        assert(trim(seq![]) =~= seq![]);
        String::new()
    };
    ParamDoc { name, description }
}

pub open spec fn opt_chars(o: Option<Vec<char>>) -> Option<Seq<char>> {
    match o {
        Some(v) => Some(v@),
        None => None,
    }
}

fn opt_string(o: &Option<Vec<char>>) -> (r: Option<String>)
    ensures
        r.deep_view() == opt_chars(*o),
{
    match o {
        Some(v) => Some(string_of(v)),
        None => None,
    }
}

/// Parse a raw Doxygen-style comment into a structured [`DocComment`].
///
/// Untagged text before the first `@tag` becomes the brief (first block) and
/// description (remaining blocks); recognized tags are `@brief`, `@param`,
/// `@return`/`@returns`, and `@see`/`@sa`. Unknown tags are ignored.
pub fn parse(raw: &str) -> (r: DocComment)
    ensures
        r@ == spec_parse(raw@),
{
    let rv = chars_of(raw);
    let text = strip_markers(&rv);
    let blocks = split_blocks(&text);
    let ghost bv = block_views(blocks@);
    let mut brief: Option<Vec<char>> = None;
    let mut description: Option<Vec<char>> = None;
    let mut ret_text: Option<Vec<char>> = None;
    let mut params: Vec<ParamDoc> = Vec::new();
    let mut see_also: Vec<String> = Vec::new();
    let mut i: usize = 0;
    while i < blocks.len()
        invariant
            i <= blocks.len(),
            bv == block_views(blocks@),
            ({
                let d = doc_of_blocks(bv.take(i as int));
                &&& d.brief == opt_chars(brief)
                &&& d.description == opt_chars(description)
                &&& d.returns == opt_chars(ret_text)
                &&& d.params == crate::model::seq_view(params@)
                &&& d.see_also == crate::model::seq_view(see_also@)
            }),
        decreases blocks.len() - i,
    {
        assert(bv.take(i + 1).drop_last() =~= bv.take(i as int));
        let ghost d = doc_of_blocks(bv.take(i as int));
        let tag = &blocks[i].0;
        let content = &blocks[i].1;
        assert(bv[i as int] == (tag@, content@));
        let is_param = eq_chars(tag.as_slice(), &['p', 'a', 'r', 'a', 'm']);
        if content.len() == 0 && !is_param {
        } else if tag.len() == 0 {
            if brief.is_none() {
                brief = Some(sub_chars(content, 0, content.len()));
                assert(content@.subrange(0, content@.len() as int) =~= content@);
            } else {
                let mut desc = match description {
                    Some(e) => {
                        let mut e = e;
                        e.push('\n');
                        e.push('\n');
                        e
                    },
                    None => Vec::new(),
                };
                let ghost mid = desc@;
                extend_chars(&mut desc, content.as_slice());
                assert(d.description matches Some(e) ==> desc@ =~= e + seq!['\n', '\n'] + content@);
                description = Some(desc);
            }
        } else if eq_chars(tag.as_slice(), &['b', 'r', 'i', 'e', 'f']) {
            brief = Some(sub_chars(content, 0, content.len()));
            assert(content@.subrange(0, content@.len() as int) =~= content@);
        } else if is_param {
            let p = make_param(content);
            proof {
                crate::model::lemma_seq_view_push(params@, p);
            }
            params.push(p);
        } else if eq_chars(tag.as_slice(), &['r', 'e', 't', 'u', 'r', 'n']) || eq_chars(
            tag.as_slice(),
            &['r', 'e', 't', 'u', 'r', 'n', 's'],
        ) {
            ret_text = Some(sub_chars(content, 0, content.len()));
            assert(content@.subrange(0, content@.len() as int) =~= content@);
        } else if eq_chars(tag.as_slice(), &['s', 'e', 'e']) || eq_chars(
            tag.as_slice(),
            &['s', 'a'],
        ) {
            let s = string_of(content);
            proof {
                crate::model::lemma_seq_view_push(see_also@, s);
            }
            see_also.push(s);
        }
        i += 1;
    }
    assert(bv.take(blocks.len() as int) =~= bv);
    DocComment {
        brief: opt_string(&brief),
        description: opt_string(&description),
        params,
        returns: opt_string(&ret_text),
        see_also,
    }
}

/// A comment in the trailing form (`/**<`, `/*!<`, `///<`, `//!<`) is always a doc comment too.
pub proof fn trailing_marker_is_doc_comment(t: Seq<char>)
    requires
        spec_is_trailing_marker(t),
    ensures
        spec_is_doc_comment(t),
{
    let i = choose|i: int| 0 <= i < 4 && starts_with(t, #[trigger] trailing_markers()[i]);
    let m = trailing_markers()[i];
    let d = doc_markers()[i];
    assert(m.subrange(0, 3) =~= d);
    assert(t.subrange(0, 3) =~= t.subrange(0, 4).subrange(0, 3));
    assert(starts_with(t, doc_markers()[i]));
}

/// Whether every text that `d` records (brief, description, return text, see-also
/// entries) is nonempty.
pub open spec fn records_no_empty_text(d: SpecDocComment) -> bool {
    &&& d.brief matches Some(b) ==> b.len() > 0
    &&& d.description matches Some(e) ==> e.len() > 0
    &&& d.returns matches Some(r) ==> r.len() > 0
    &&& forall|i: int| 0 <= i < d.see_also.len() ==> #[trigger] d.see_also[i].len() > 0
}

proof fn lemma_blocks_no_empty_text(bs: Seq<SpecBlock>)
    ensures
        records_no_empty_text(doc_of_blocks(bs)),
    decreases bs.len(),
{
    if bs.len() > 0 {
        lemma_blocks_no_empty_text(bs.drop_last());
        let d = doc_of_blocks(bs.drop_last());
        let (tag, content) = bs.last();
        let e = doc_of_blocks(bs);
        assert(e == apply_block(d, tag, content));
        if content.len() > 0 {
            assert forall|i: int| 0 <= i < e.see_also.len() implies #[trigger] e.see_also[i].len()
                > 0 by {
                if i < d.see_also.len() {
                    assert(d.see_also[i].len() > 0);
                }
            }
        }
    }
}

/// Blocks without text are dropped: a parsed comment never records an empty brief,
/// description, return text or see-also entry (only `@param` entries may be empty).
pub proof fn parse_records_no_empty_text(raw: Seq<char>)
    ensures
        records_no_empty_text(spec_parse(raw)),
{
    lemma_blocks_no_empty_text(spec_blocks(spec_strip_markers(raw)));
}

} // verus!
