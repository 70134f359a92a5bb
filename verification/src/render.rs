//! What the site's pages show: anchors, cross-links between type names, HTML
//! escaping, page file names, the navigation tree and the API reference grouped
//! by source file.
use vstd::prelude::*;

use crate::config::NavEntry;
use crate::model::{
    copy_opt_string, copy_strings, seq_view, DocComment, Document, Enum, Field, Function, Macro,
    SpecDocComment, SpecEnum, SpecField, SpecFunction, SpecMacro, SpecParamDoc, SpecSourceFile,
    SpecStruct, SpecTypedef, SpecVariant, Struct, Typedef, Variant, doc_view, lemma_seq_view_push,
};
use crate::order::{chars_less, chars_lt, lemma_chars_lt_irreflexive, lemma_chars_lt_total, lemma_chars_lt_transitive};
use crate::paths::{
    components, cur_tag, file_name, last_dot, lemma_last_dot, lemma_path_components_len,
    lemma_relative_path_components, normal_tag, parent_tag, path_components, relative_component,
    root_tag,
};
use crate::text::{
    chars_of, eq_chars, extend_chars, find_char, join, join_chars, lacks, lemma_find_char_unique,
    lemma_join_lacks, starts_with, string_of, views,
};

verus! {

/// The character that an anchor holds in place of `c`: ASCII letters lowercased,
/// ASCII digits kept, anything else `-`.
pub open spec fn anchor_char(c: char) -> char {
    if 'A' <= c && c <= 'Z' {
        ((c as u32) + 32) as char
    } else if ('a' <= c && c <= 'z') || ('0' <= c && c <= '9') {
        c
    } else {
        '-'
    }
}

pub open spec fn spec_anchor_for(file: Seq<char>) -> Seq<char> {
    Seq::new(file.len(), |i: int| anchor_char(file[i]))
}

/// An HTML-id-safe anchor for a file path, e.g. `src/mathutil.h` -> `src-mathutil-h`.
pub fn anchor_for(file: &str) -> (r: String)
    ensures
        r@ == spec_anchor_for(file@),
{
    let v = chars_of(file);
    let mut out: Vec<char> = Vec::new();
    let mut i: usize = 0;
    while i < v.len()
        invariant
            i <= v.len(),
            out@ == spec_anchor_for(v@).take(i as int),
        decreases v.len() - i,
    {
        let c = v[i];
        let d = if 'A' <= c && c <= 'Z' {
            assert(c as u32 + 32 <= 'z' as u32);
            char_from_ascii((c as u8) + 32)
        } else if ('a' <= c && c <= 'z') || ('0' <= c && c <= '9') {
            c
        } else {
            '-'
        };
        out.push(d);
        assert(spec_anchor_for(v@).take(i + 1) =~= spec_anchor_for(v@).take(i as int).push(d));
        i += 1;
    }
    assert(spec_anchor_for(v@).take(v@.len() as int) =~= spec_anchor_for(v@));
    string_of(&out)
}

/// The character of an ASCII code.
fn char_from_ascii(b: u8) -> (r: char)
    requires
        b < 128,
    ensures
        r as u32 == b as u32,
{
    b as char
}

/// Whether `c` may only appear in an HTML id as we make them.
pub open spec fn is_id_safe(c: char) -> bool {
    ('a' <= c && c <= 'z') || ('0' <= c && c <= '9') || c == '-'
}

/// A file's anchor is HTML-id safe: it holds only lowercase ASCII letters, digits and
/// `-`, one for each character of the path.
pub proof fn anchor_is_id_safe(file: Seq<char>)
    ensures
        spec_anchor_for(file).len() == file.len(),
        forall|i: int| 0 <= i < file.len() ==> is_id_safe(#[trigger] spec_anchor_for(file)[i]),
{
    assert forall|i: int| 0 <= i < file.len() implies is_id_safe(#[trigger] spec_anchor_for(file)[i]) by {
        let c = file[i];
        if 'A' <= c && c <= 'Z' {
            assert('a' <= anchor_char(c) && anchor_char(c) <= 'z');
        }
    }
}

pub open spec fn type_prefix() -> Seq<char> {
    seq!['t', 'y', 'p', 'e', '-']
}

/// An HTML-id-safe anchor for a type-like symbol. C identifiers are already id-safe
/// (`[A-Za-z_][A-Za-z0-9_]*`), so no sanitizing is needed beyond the `type-` prefix.
pub fn type_anchor(name: &str) -> (r: String)
    ensures
        r@ == type_prefix() + name@,
{
    let mut out: Vec<char> = Vec::new();
    extend_chars(&mut out, &['t', 'y', 'p', 'e', '-']);
    let v = chars_of(name);
    extend_chars(&mut out, v.as_slice());
    string_of(&out)
}

/// What `escape_html_char` writes for `c`.
pub open spec fn escape_char(c: char) -> Seq<char> {
    if c == '&' {
        seq!['&', 'a', 'm', 'p', ';']
    } else if c == '<' {
        seq!['&', 'l', 't', ';']
    } else if c == '>' {
        seq!['&', 'g', 't', ';']
    } else {
        seq![c]
    }
}

/// `s` with every character escaped as `escape_char` says.
pub open spec fn escape_all(s: Seq<char>) -> Seq<char>
    decreases s.len(),
{
    if s.len() == 0 {
        seq![]
    } else {
        escape_all(s.drop_last()) + escape_char(s.last())
    }
}

pub fn escape_html_char(c: char, out: &mut Vec<char>)
    ensures
        final(out)@ == old(out)@ + escape_char(c),
{
    if c == '&' {
        extend_chars(out, &['&', 'a', 'm', 'p', ';']);
    } else if c == '<' {
        extend_chars(out, &['&', 'l', 't', ';']);
    } else if c == '>' {
        extend_chars(out, &['&', 'g', 't', ';']);
    } else {
        let ghost before = out@;
        out.push(c);
        assert(out@ =~= before + seq![c]);
    }
}

/// The names that link to a type's entry, each with its anchor.
pub type SpecSymbols = Seq<(Seq<char>, Seq<char>)>;

/// The anchor of `name` in `table`: that of its first entry.
pub open spec fn lookup(table: SpecSymbols, name: Seq<char>) -> Option<Seq<char>>
    decreases table.len(),
{
    if table.len() == 0 {
        None
    } else if table[0].0 == name {
        Some(table[0].1)
    } else {
        lookup(table.drop_first(), name)
    }
}

/// `table` with `name` bound to `anchor`, replacing the binding it had.
pub open spec fn bind(table: SpecSymbols, name: Seq<char>, anchor: Seq<char>) -> SpecSymbols
    decreases table.len(),
{
    if table.len() == 0 {
        seq![(name, anchor)]
    } else if table[0].0 == name {
        seq![(name, anchor)] + table.drop_first()
    } else {
        seq![table[0]] + bind(table.drop_first(), name, anchor)
    }
}

/// Maps a type-like symbol's name (struct/enum/typedef) to the anchor id its own entry is
/// rendered with, so [`linkify`] can turn a plain mention of that name — e.g. `Point` inside the
/// text `const Point *p` — into a link to its definition on the same page.
pub struct SymbolTable {
    entries: Vec<(String, String)>,
}

impl View for SymbolTable {
    type V = SpecSymbols;

    closed spec fn view(&self) -> SpecSymbols {
        Seq::new(self.entries@.len(), |i: int| (self.entries@[i].0@, self.entries@[i].1@))
    }
}

impl SymbolTable {
    /// An empty table.
    pub fn new() -> (r: SymbolTable)
        ensures
            r@ == Seq::<(Seq<char>, Seq<char>)>::empty(),
    {
        let r = SymbolTable { entries: Vec::new() };
        assert(r@ =~= Seq::<(Seq<char>, Seq<char>)>::empty());
        r
    }

    /// Index of the first entry named `name`.
    fn position(&self, name: &[char]) -> (r: Option<usize>)
        ensures
            match r {
                Some(i) => i < self@.len() && self@[i as int].0 == name@ && lookup(self@, name@)
                    == Some(self@[i as int].1),
                None => lookup(self@, name@) is None,
            },
            r is None ==> forall|j: int| 0 <= j < self@.len() ==> #[trigger] self@[j].0 != name@,
            r matches Some(i) ==> forall|j: int| 0 <= j < i ==> #[trigger] self@[j].0 != name@,
    {
        let mut i: usize = 0;
        while i < self.entries.len()
            invariant
                i <= self@.len(),
                self@.len() == self.entries@.len(),
                forall|j: int| 0 <= j < i ==> #[trigger] self@[j].0 != name@,
            decreases self.entries.len() - i,
        {
            let k = chars_of(self.entries[i].0.as_str());
            assert(self@[i as int].0 == k@);
            if eq_chars(k.as_slice(), name) {
                proof {
                    lemma_lookup_first(self@, name@, i as int);
                }
                return Some(i);
            }
            i += 1;
        }
        proof {
            lemma_lookup_absent(self@, name@);
        }
        None
    }

    /// The anchor bound to `name`.
    pub fn get(&self, name: &str) -> (r: Option<&String>)
        ensures
            match r {
                Some(a) => lookup(self@, name@) == Some(a@),
                None => lookup(self@, name@) is None,
            },
    {
        let k = chars_of(name);
        match self.position(k.as_slice()) {
            Some(i) => {
                assert(self@[i as int].1 == self.entries@[i as int].1@);
                Some(&self.entries[i].1)
            },
            None => None,
        }
    }

    /// Binds `name` to `anchor`, returning the anchor it was bound to before.
    pub fn insert(&mut self, name: String, anchor: String) -> (r: Option<String>)
        ensures
            final(self)@ == bind(old(self)@, name@, anchor@),
            match r {
                Some(a) => lookup(old(self)@, name@) == Some(a@),
                None => lookup(old(self)@, name@) is None,
            },
    {
        let k = chars_of(name.as_str());
        match self.position(k.as_slice()) {
            Some(i) => {
                let ghost before = self@;
                proof {
                    lemma_bind_at(before, name@, anchor@, i as int);
                }
                let previous = self.entries[i].1.clone();
                self.entries.set(i, (name, anchor));
                assert(self@ =~= before.update(i as int, (k@, anchor@)));
                Some(previous)
            },
            None => {
                let ghost before = self@;
                proof {
                    lemma_bind_absent(before, name@, anchor@);
                }
                let ghost pair = (name@, anchor@);
                self.entries.push((name, anchor));
                assert(self@ =~= before.push(pair));
                None
            },
        }
    }

    /// Binds `name` to `anchor` unless it is bound already.
    pub fn insert_if_absent(&mut self, name: String, anchor: String)
        ensures
            final(self)@ == if lookup(old(self)@, name@) is None {
                bind(old(self)@, name@, anchor@)
            } else {
                old(self)@
            },
    {
        let k = chars_of(name.as_str());
        if self.position(k.as_slice()).is_none() {
            self.insert(name, anchor);
        }
    }
}

proof fn lemma_lookup_first(t: SpecSymbols, name: Seq<char>, i: int)
    requires
        0 <= i < t.len(),
        t[i].0 == name,
        forall|j: int| 0 <= j < i ==> #[trigger] t[j].0 != name,
    ensures
        lookup(t, name) == Some(t[i].1),
    decreases i,
{
    if i > 0 {
        assert(t[0].0 != name);
        assert forall|j: int| 0 <= j < i - 1 implies #[trigger] t.drop_first()[j].0 != name by {
            assert(t.drop_first()[j] == t[j + 1]);
        }
        lemma_lookup_first(t.drop_first(), name, i - 1);
    }
}

proof fn lemma_lookup_absent(t: SpecSymbols, name: Seq<char>)
    requires
        forall|j: int| 0 <= j < t.len() ==> #[trigger] t[j].0 != name,
    ensures
        lookup(t, name) is None,
    decreases t.len(),
{
    if t.len() > 0 {
        assert(t[0].0 != name);
        assert forall|j: int| 0 <= j < t.len() - 1 implies #[trigger] t.drop_first()[j].0 != name by {
            assert(t.drop_first()[j] == t[j + 1]);
        }
        lemma_lookup_absent(t.drop_first(), name);
    }
}

proof fn lemma_bind_at(t: SpecSymbols, name: Seq<char>, anchor: Seq<char>, i: int)
    requires
        0 <= i < t.len(),
        t[i].0 == name,
        forall|j: int| 0 <= j < i ==> #[trigger] t[j].0 != name,
    ensures
        bind(t, name, anchor) == t.update(i, (name, anchor)),
    decreases i,
{
    if i == 0 {
        assert(seq![(name, anchor)] + t.drop_first() =~= t.update(0, (name, anchor)));
    } else {
        assert(t[0].0 != name);
        assert forall|j: int| 0 <= j < i - 1 implies #[trigger] t.drop_first()[j].0 != name by {
            assert(t.drop_first()[j] == t[j + 1]);
        }
        lemma_bind_at(t.drop_first(), name, anchor, i - 1);
        assert(seq![t[0]] + t.drop_first().update(i - 1, (name, anchor)) =~= t.update(
            i,
            (name, anchor),
        ));
    }
}

proof fn lemma_bind_absent(t: SpecSymbols, name: Seq<char>, anchor: Seq<char>)
    requires
        forall|j: int| 0 <= j < t.len() ==> #[trigger] t[j].0 != name,
    ensures
        bind(t, name, anchor) == t.push((name, anchor)),
    decreases t.len(),
{
    if t.len() == 0 {
        assert(seq![(name, anchor)] =~= t.push((name, anchor)));
    } else {
        assert(t[0].0 != name);
        assert forall|j: int| 0 <= j < t.len() - 1 implies #[trigger] t.drop_first()[j].0 != name by {
            assert(t.drop_first()[j] == t[j + 1]);
        }
        lemma_bind_absent(t.drop_first(), name, anchor);
        assert(seq![t[0]] + t.drop_first().push((name, anchor)) =~= t.push((name, anchor)));
    }
}

/// A read gives back what the last write to the same name wrote.
pub proof fn lookup_after_bind(t: SpecSymbols, name: Seq<char>, anchor: Seq<char>)
    ensures
        lookup(bind(t, name, anchor), name) == Some(anchor),
    decreases t.len(),
{
    if t.len() > 0 && t[0].0 != name {
        lookup_after_bind(t.drop_first(), name, anchor);
        let b = seq![t[0]] + bind(t.drop_first(), name, anchor);
        assert(b.drop_first() =~= bind(t.drop_first(), name, anchor));
    } else if t.len() > 0 {
        let b = seq![(name, anchor)] + t.drop_first();
        assert(b[0] == (name, anchor));
    }
}

/// A write to one name leaves what every other name reads unchanged.
pub proof fn lookup_after_bind_other(
    t: SpecSymbols,
    name: Seq<char>,
    anchor: Seq<char>,
    other: Seq<char>,
)
    requires
        other != name,
    ensures
        lookup(bind(t, name, anchor), other) == lookup(t, other),
    decreases t.len(),
{
    if t.len() == 0 {
        let b = seq![(name, anchor)];
        assert(b[0] == (name, anchor));
        assert(b.drop_first() =~= Seq::<(Seq<char>, Seq<char>)>::empty());
        assert(bind(t, name, anchor) == b);
        assert(lookup(b, other) == lookup(b.drop_first(), other));
    } else if t[0].0 == name {
        let b = seq![(name, anchor)] + t.drop_first();
        assert(b[0] == (name, anchor));
        assert(b.drop_first() =~= t.drop_first());
        assert(bind(t, name, anchor) == b);
        assert(lookup(b, other) == lookup(b.drop_first(), other));
    } else {
        lookup_after_bind_other(t.drop_first(), name, anchor, other);
        let b = seq![t[0]] + bind(t.drop_first(), name, anchor);
        assert(b[0] == t[0]);
        assert(b.drop_first() =~= bind(t.drop_first(), name, anchor));
        assert(bind(t, name, anchor) == b);
        if t[0].0 != other {
            assert(lookup(b, other) == lookup(b.drop_first(), other));
        }
    }
}

pub open spec fn is_ident_start(c: char) -> bool {
    ('a' <= c && c <= 'z') || ('A' <= c && c <= 'Z') || c == '_'
}

pub open spec fn is_ident_char(c: char) -> bool {
    is_ident_start(c) || ('0' <= c && c <= '9')
}

/// Length of the longest prefix of `s` made of identifier characters.
pub open spec fn ident_len(s: Seq<char>) -> nat
    decreases s.len(),
{
    if s.len() > 0 && is_ident_char(s[0]) {
        1 + ident_len(s.drop_first())
    } else {
        0
    }
}

pub proof fn lemma_ident_len(s: Seq<char>)
    ensures
        ident_len(s) <= s.len(),
        forall|j: int| 0 <= j < ident_len(s) ==> is_ident_char(#[trigger] s[j]),
        ident_len(s) < s.len() ==> !is_ident_char(s[ident_len(s) as int]),
    decreases s.len(),
{
    if s.len() > 0 && is_ident_char(s[0]) {
        lemma_ident_len(s.drop_first());
        assert forall|j: int| 0 <= j < ident_len(s) implies is_ident_char(#[trigger] s[j]) by {
            if j > 0 {
                assert(s[j] == s.drop_first()[j - 1]);
            }
        }
        if ident_len(s) < s.len() {
            assert(s[ident_len(s) as int] == s.drop_first()[ident_len(s.drop_first()) as int]);
        }
    }
}

/// What an identifier `token` becomes: a link to its type's anchor when the table binds
/// it and it is not the excluded name, else the token itself.
pub open spec fn render_token(
    token: Seq<char>,
    table: SpecSymbols,
    exclude: Option<Seq<char>>,
) -> Seq<char> {
    if exclude == Some(token) {
        token
    } else {
        match lookup(table, token) {
            Some(anchor) => seq!['<', 'a', ' ', 'h', 'r', 'e', 'f', '=', '"', '#'] + anchor + seq![
                '"',
                '>',
            ] + token + seq!['<', '/', 'a', '>'],
            None => token,
        }
    }
}

/// `text` as HTML: every whole identifier (a maximal run of `[A-Za-z0-9_]` that starts
/// with a letter or `_`) rendered by `render_token`, every other character escaped.
pub open spec fn spec_linkify(text: Seq<char>, table: SpecSymbols, exclude: Option<Seq<char>>) -> Seq<
    char,
>
    decreases text.len(),
{
    if text.len() == 0 {
        seq![]
    } else if is_ident_start(text[0]) {
        let n = ident_len(text);
        proof {
            lemma_ident_len(text);
        }
        render_token(text.take(n as int), table, exclude) + spec_linkify(
            text.skip(n as int),
            table,
            exclude,
        )
    } else {
        escape_char(text[0]) + spec_linkify(text.drop_first(), table, exclude)
    }
}

pub open spec fn link_open() -> Seq<char> {
    seq!['<', 'a', ' ', 'h', 'r', 'e', 'f', '=', '"', '#']
}

pub open spec fn link_close() -> Seq<char> {
    seq!['<', '/', 'a', '>']
}

/// The text that linkified HTML shows: each link's tags removed, and the escapes `&lt;`,
/// `&gt;` and `&amp;` decoded, in one pass from the left.
pub open spec fn shown_text(s: Seq<char>) -> Seq<char>
    decreases s.len(),
{
    if s.len() == 0 {
        seq![]
    } else if starts_with(s, link_open()) {
        match find_char(s.skip(10), '"') {
            Some(k) => if 10 + k + 2 <= s.len() {
                shown_text(s.skip(10 + k as int + 2))
            } else {
                seq![]
            },
            None => seq![],
        }
    } else if starts_with(s, link_close()) {
        shown_text(s.skip(4))
    } else if starts_with(s, seq!['&', 'l', 't', ';']) {
        seq!['<'] + shown_text(s.skip(4))
    } else if starts_with(s, seq!['&', 'g', 't', ';']) {
        seq!['>'] + shown_text(s.skip(4))
    } else if starts_with(s, seq!['&', 'a', 'm', 'p', ';']) {
        seq!['&'] + shown_text(s.skip(5))
    } else {
        seq![s[0]] + shown_text(s.drop_first())
    }
}

/// Text free of `<` and `&` shows as itself, whatever follows it.
proof fn lemma_shown_plain(w: Seq<char>, x: Seq<char>)
    requires
        lacks(w, '<'),
        lacks(w, '&'),
    ensures
        shown_text(w + x) == w + shown_text(x),
    decreases w.len(),
{
    if w.len() > 0 {
        let s = w + x;
        assert(s[0] == w[0]);
        assert(s.drop_first() =~= w.drop_first() + x);
        lemma_shown_plain(w.drop_first(), x);
        assert(w =~= seq![w[0]] + w.drop_first());
    } else {
        assert(w + x =~= x);
    }
}

/// An escaped character shows as itself.
proof fn lemma_shown_escape(c: char, x: Seq<char>)
    ensures
        shown_text(escape_char(c) + x) == seq![c] + shown_text(x),
{
    let s = escape_char(c) + x;
    if c == '&' || c == '<' || c == '>' {
        let e = escape_char(c);
        assert(s.subrange(0, e.len() as int) =~= e);
        assert(s.skip(e.len() as int) =~= x);
        assert(s[0] == '&');
        if c == '<' {
            assert(s.subrange(0, 4) =~= seq!['&', 'l', 't', ';']);
        } else if c == '>' {
            assert(s.subrange(0, 4) =~= seq!['&', 'g', 't', ';']);
            assert(s[1] == 'g');
        } else {
            assert(s.subrange(0, 5) =~= seq!['&', 'a', 'm', 'p', ';']);
            assert(s[1] == 'a');
        }
    } else {
        assert(s[0] == c);
        assert(s.drop_first() =~= x);
    }
}

/// A rendered identifier shows as the identifier, when anchors hold no `"`.
proof fn lemma_shown_token(token: Seq<char>, table: SpecSymbols, exclude: Option<Seq<char>>, x: Seq<char>)
    requires
        forall|j: int| 0 <= j < token.len() ==> is_ident_char(#[trigger] token[j]),
        forall|i: int| 0 <= i < table.len() ==> lacks(#[trigger] table[i].1, '"'),
    ensures
        shown_text(render_token(token, table, exclude) + x) == token + shown_text(x),
{
    assert(lacks(token, '<') && lacks(token, '&')) by {
        assert forall|j: int| 0 <= j < token.len() implies token[j] != '<' && token[j] != '&' by {
            assert(is_ident_char(token[j]));
        }
    }
    if exclude == Some(token) {
        lemma_shown_plain(token, x);
    } else {
        match lookup(table, token) {
            Some(anchor) => {
                lemma_lookup_in_table(table, token);
                let rest = token + link_close() + x;
                let s = link_open() + anchor + seq!['"', '>'] + token + link_close() + x;
                assert(render_token(token, table, exclude) + x =~= s);
                assert(s.subrange(0, 10) =~= link_open());
                let t = s.skip(10);
                assert(t =~= anchor + seq!['"', '>'] + rest);
                assert(t[anchor.len() as int] == '"');
                lemma_find_char_unique(t, '"', anchor.len() as int);
                assert(s.skip(10 + anchor.len() as int + 2) =~= rest);
                lemma_shown_plain(token, link_close() + x);
                assert(token + link_close() + x =~= token + (link_close() + x));
                let u = link_close() + x;
                assert(u.subrange(0, 4) =~= link_close());
                assert(u.skip(4) =~= x);
                assert(u[0] == '<' && u[1] == '/');
            },
            None => {
                lemma_shown_plain(token, x);
            },
        }
    }
}

proof fn lemma_lookup_in_table(table: SpecSymbols, name: Seq<char>)
    ensures
        lookup(table, name) matches Some(a) ==> exists|i: int| 0 <= i < table.len() && #[trigger] table[i].1 == a,
    decreases table.len(),
{
    if table.len() > 0 {
        if table[0].0 != name {
            lemma_lookup_in_table(table.drop_first(), name);
            match lookup(table, name) {
                Some(a) => {
                    let i = choose|i: int| 0 <= i < table.drop_first().len() && #[trigger] table.drop_first()[i].1 == a;
                    assert(table[i + 1].1 == a);
                },
                None => {},
            }
        } else {
            assert(table[0].1 == table[0].1);
        }
    }
}

/// Removing the links from `linkify`'s HTML and decoding its escapes gives back the text,
/// when no anchor holds a `"`.
pub proof fn linkify_shows_the_text(text: Seq<char>, table: SpecSymbols, exclude: Option<Seq<char>>)
    requires
        forall|i: int| 0 <= i < table.len() ==> lacks(#[trigger] table[i].1, '"'),
    ensures
        shown_text(spec_linkify(text, table, exclude)) == text,
    decreases text.len(),
{
    if text.len() > 0 {
        if is_ident_start(text[0]) {
            lemma_ident_len(text);
            let n = ident_len(text) as int;
            let tok = text.take(n);
            assert forall|j: int| 0 <= j < tok.len() implies is_ident_char(#[trigger] tok[j]) by {
                assert(tok[j] == text[j]);
            }
            linkify_shows_the_text(text.skip(n), table, exclude);
            lemma_shown_token(tok, table, exclude, spec_linkify(text.skip(n), table, exclude));
            assert(tok + text.skip(n) =~= text);
        } else {
            linkify_shows_the_text(text.drop_first(), table, exclude);
            lemma_shown_escape(text[0], spec_linkify(text.drop_first(), table, exclude));
            assert(seq![text[0]] + text.drop_first() =~= text);
        }
    }
}

proof fn lemma_ident_len_concat(a: Seq<char>, b: Seq<char>)
    requires
        b.len() == 0 || !is_ident_char(b[0]),
    ensures
        ident_len(a + b) == ident_len(a),
    decreases a.len(),
{
    if a.len() == 0 {
        assert(a + b =~= b);
    } else {
        assert((a + b)[0] == a[0]);
        if is_ident_char(a[0]) {
            assert((a + b).drop_first() =~= a.drop_first() + b);
            lemma_ident_len_concat(a.drop_first(), b);
        }
    }
}

/// Linking works token by token: text that splits where no identifier runs across the cut
/// links as its two parts do, so every whole-word occurrence of a name is linked the same
/// way wherever it stands.
pub proof fn linkify_splits_at_token_boundaries(
    a: Seq<char>,
    b: Seq<char>,
    table: SpecSymbols,
    exclude: Option<Seq<char>>,
)
    requires
        b.len() == 0 || !is_ident_char(b[0]),
    ensures
        spec_linkify(a + b, table, exclude) == spec_linkify(a, table, exclude) + spec_linkify(b, table, exclude),
    decreases a.len(),
{
    if a.len() == 0 {
        assert(a + b =~= b);
        assert(Seq::<char>::empty() + spec_linkify(b, table, exclude) =~= spec_linkify(b, table, exclude));
    } else {
        let s = a + b;
        assert(s[0] == a[0]);
        if is_ident_start(a[0]) {
            lemma_ident_len_concat(a, b);
            lemma_ident_len(a);
            let n = ident_len(a) as int;
            assert(s.take(n) =~= a.take(n));
            assert(s.skip(n) =~= a.skip(n) + b);
            linkify_splits_at_token_boundaries(a.skip(n), b, table, exclude);
            let r = render_token(a.take(n), table, exclude);
            assert(r + (spec_linkify(a.skip(n), table, exclude) + spec_linkify(b, table, exclude)) =~= (r
                + spec_linkify(a.skip(n), table, exclude)) + spec_linkify(b, table, exclude));
        } else {
            assert(s.drop_first() =~= a.drop_first() + b);
            linkify_splits_at_token_boundaries(a.drop_first(), b, table, exclude);
            let e = escape_char(a[0]);
            assert(e + (spec_linkify(a.drop_first(), table, exclude) + spec_linkify(b, table, exclude)) =~= (e
                + spec_linkify(a.drop_first(), table, exclude)) + spec_linkify(b, table, exclude));
        }
    }
}

/// An identifier that the table binds, and that is not the excluded name, becomes a link to
/// its anchor; one that the table does not bind, or the excluded name, stays as it is.
pub proof fn linkify_links_each_bound_identifier(
    name: Seq<char>,
    table: SpecSymbols,
    exclude: Option<Seq<char>>,
)
    requires
        name.len() > 0,
        is_ident_start(name[0]),
        forall|j: int| 0 <= j < name.len() ==> is_ident_char(#[trigger] name[j]),
    ensures
        spec_linkify(name, table, exclude) == if exclude != Some(name) && lookup(table, name) is Some {
            link_open() + lookup(table, name)->0 + seq!['"', '>'] + name + link_close()
        } else {
            name
        },
{
    lemma_ident_len(name);
    let n = ident_len(name) as int;
    if n < name.len() {
        assert(is_ident_char(name[n]));
    }
    assert(n == name.len());
    assert(name.take(n) =~= name);
    assert(name.skip(n) =~= Seq::<char>::empty());
    let r = render_token(name, table, exclude);
    assert(spec_linkify(name.skip(n), table, exclude) == Seq::<char>::empty());
    assert(spec_linkify(name, table, exclude) == render_token(name.take(n), table, exclude) + spec_linkify(
        name.skip(n),
        table,
        exclude,
    ));
    assert(r + Seq::<char>::empty() =~= r);
    if exclude != Some(name) && lookup(table, name) is Some {
        let anchor = lookup(table, name)->0;
        assert(r =~= link_open() + anchor + seq!['"', '>'] + name + link_close());
    }
}

fn is_ident_start_char(c: char) -> (r: bool)
    ensures
        r == is_ident_start(c),
{
    ('a' <= c && c <= 'z') || ('A' <= c && c <= 'Z') || c == '_'
}

fn is_ident_char_exec(c: char) -> (r: bool)
    ensures
        r == is_ident_char(c),
{
    is_ident_start_char(c) || ('0' <= c && c <= '9')
}

/// Re-emit `text` (a C signature, field type, or typedef's underlying type — never
/// user-controlled prose) as HTML, turning any whole-word mention of a name in `symbols` into a
/// link to that symbol's anchor. `exclude` skips linking a symbol's own name within its own
/// defining text — e.g. `typedef void (*PointVisitor)(...)` would otherwise link `PointVisitor`
/// to itself, right at the line that defines it. The output already contains real `<a>` markup.
pub fn linkify(text: &str, symbols: &SymbolTable, exclude: Option<&str>) -> (r: String)
    ensures
        r@ == spec_linkify(
            text@,
            symbols@,
            match exclude {
                Some(e) => Some(e@),
                None => None,
            },
        ),
{
    let ghost ex = match exclude {
        Some(e) => Some(e@),
        None => None,
    };
    let v = chars_of(text);
    let ex_chars: Option<Vec<char>> = match exclude {
        Some(e) => Some(chars_of(e)),
        None => None,
    };
    let mut out: Vec<char> = Vec::new();
    let mut i: usize = 0;
    assert(v@.skip(0) =~= v@);
    while i < v.len()
        invariant
            i <= v.len(),
            spec_linkify(v@, symbols@, ex) == out@ + spec_linkify(v@.skip(i as int), symbols@, ex),
            match ex_chars {
                Some(e) => ex == Some(e@),
                None => ex is None,
            },
        decreases v.len() - i,
    {
        let ghost rest = v@.skip(i as int);
        assert(rest[0] == v@[i as int]);
        let c = v[i];
        if is_ident_start_char(c) {
            let mut j = i + 1;
            while j < v.len() && is_ident_char_exec(v[j])
                invariant
                    i < j <= v.len(),
                    forall|t: int| i <= t < j ==> is_ident_char(#[trigger] v@[t]),
                decreases v.len() - j,
            {
                j += 1;
            }
            proof {
                lemma_ident_len(rest);
                let n = ident_len(rest) as int;
                assert forall|t: int| 0 <= t < j - i implies is_ident_char(#[trigger] rest[t]) by {
                    assert(rest[t] == v@[i + t]);
                }
                if n < j - i {
                    assert(!is_ident_char(rest[n]));
                }
                if j - i < n {
                    assert(rest[j - i] == v@[j as int]);
                    assert(is_ident_char(rest[j - i]));
                }
                assert(n == j - i);
                assert(rest.take(n) =~= v@.subrange(i as int, j as int));
                assert(rest.skip(n) =~= v@.skip(j as int));
            }
            let token = crate::text::sub_chars(&v, i, j);
            let excluded = match &ex_chars {
                Some(e) => eq_chars(e.as_slice(), token.as_slice()),
                None => false,
            };
            let ghost before = out@;
            if excluded {
                extend_chars(&mut out, token.as_slice());
            } else {
                match symbols.position(token.as_slice()) {
                    Some(k) => {
                        extend_chars(&mut out, &['<', 'a', ' ', 'h', 'r', 'e', 'f', '=', '"', '#']);
                        let anchor = chars_of(symbols.entries[k].1.as_str());
                        assert(anchor@ == symbols@[k as int].1);
                        extend_chars(&mut out, anchor.as_slice());
                        extend_chars(&mut out, &['"', '>']);
                        extend_chars(&mut out, token.as_slice());
                        extend_chars(&mut out, &['<', '/', 'a', '>']);
                    },
                    None => {
                        extend_chars(&mut out, token.as_slice());
                    },
                }
            }
            assert(out@ =~= before + render_token(token@, symbols@, ex));
            i = j;
        } else {
            let ghost before = out@;
            escape_html_char(c, &mut out);
            assert(rest.drop_first() =~= v@.skip(i + 1));
            i += 1;
        }
    }
    assert(v@.skip(v@.len() as int) =~= Seq::<char>::empty());
    assert(out@ + Seq::<char>::empty() =~= out@);
    string_of(&out)
}

proof fn lemma_escape_all_add(a: Seq<char>, b: Seq<char>)
    ensures
        escape_all(a + b) == escape_all(a) + escape_all(b),
    decreases b.len(),
{
    if b.len() == 0 {
        assert(a + b =~= a);
        assert(escape_all(a) + escape_all(b) =~= escape_all(a));
    } else {
        lemma_escape_all_add(a, b.drop_last());
        assert((a + b).drop_last() =~= a + b.drop_last());
        assert((a + b).last() == b.last());
        assert(escape_all(a) + (escape_all(b.drop_last()) + escape_char(b.last())) =~= (
        escape_all(a) + escape_all(b.drop_last())) + escape_char(b.last()));
    }
}

proof fn lemma_escape_all_ident(t: Seq<char>)
    requires
        forall|j: int| 0 <= j < t.len() ==> is_ident_char(#[trigger] t[j]),
    ensures
        escape_all(t) == t,
    decreases t.len(),
{
    if t.len() > 0 {
        assert(is_ident_char(t[t.len() - 1]));
        lemma_escape_all_ident(t.drop_last());
        assert(t.drop_last() + seq![t.last()] =~= t);
    }
}

proof fn lemma_escape_all_first(c: char, s: Seq<char>)
    ensures
        escape_all(seq![c] + s) == escape_char(c) + escape_all(s),
{
    lemma_escape_all_add(seq![c], s);
    assert(seq![c].drop_last() =~= Seq::<char>::empty());
    assert(seq![c].last() == c);
    assert(escape_all(Seq::<char>::empty()) == Seq::<char>::empty());
    assert(escape_all(seq![c]) == escape_all(seq![c].drop_last()) + escape_char(seq![c].last()));
    assert(Seq::<char>::empty() + escape_char(c) =~= escape_char(c));
}

/// With no symbols to link and no name excluded, `linkify` only escapes the text.
pub proof fn linkify_without_symbols_only_escapes(text: Seq<char>)
    ensures
        spec_linkify(text, Seq::<(Seq<char>, Seq<char>)>::empty(), None) == escape_all(text),
    decreases text.len(),
{
    let table = Seq::<(Seq<char>, Seq<char>)>::empty();
    if text.len() > 0 {
        if is_ident_start(text[0]) {
            lemma_ident_len(text);
            let n = ident_len(text) as int;
            linkify_without_symbols_only_escapes(text.skip(n));
            assert(lookup(table, text.take(n)) is None);
            lemma_escape_all_ident(text.take(n));
            lemma_escape_all_add(text.take(n), text.skip(n));
            assert(text.take(n) + text.skip(n) =~= text);
        } else {
            linkify_without_symbols_only_escapes(text.drop_first());
            lemma_escape_all_first(text[0], text.drop_first());
            assert(seq![text[0]] + text.drop_first() =~= text);
        }
    }
}

/// The text a path component shows as: `/` for the root, `.` and `..`, or its name.
pub open spec fn component_text(c: Seq<char>) -> Seq<char> {
    if c.len() > 0 && c[0] == root_tag() {
        seq!['/']
    } else if c.len() > 0 && c[0] == cur_tag() {
        seq!['.']
    } else if c.len() > 0 && c[0] == parent_tag() {
        seq!['.', '.']
    } else if c.len() > 0 {
        c.drop_first()
    } else {
        seq![]
    }
}

/// The components of `p` as text, joined with `-`.
pub open spec fn flat_name(p: Seq<char>) -> Seq<char> {
    let cs = path_components(p);
    join(Seq::new(cs.len(), |i: int| component_text(cs[i])), seq!['-'])
}

/// Length of the stem of a file name: the name up to its extension's `.`.
pub open spec fn stem_len(n: Seq<char>) -> nat {
    match last_dot(n) {
        Some(k) => if k > 0 {
            k
        } else {
            n.len()
        },
        None => n.len(),
    }
}

/// `f` with the extension of its file name set to `html` (`PathBuf::set_extension`), the
/// file name being the end of `f`; unchanged when `f` names no file.
pub open spec fn with_html_extension(f: Seq<char>) -> Seq<char> {
    match file_name(f) {
        Some(n) => f.take(f.len() - n.len() + stem_len(n)) + seq!['.', 'h', 't', 'm', 'l'],
        None => f,
    }
}

/// The output file name of the page for a source-relative path.
pub open spec fn spec_page_slug(p: Seq<char>) -> Seq<char> {
    with_html_extension(flat_name(p))
}

/// The output file name of the page for a relative source path holds no `/`: every generated
/// page lives directly under the site root.
pub proof fn relative_page_slug_is_flat(p: Seq<char>)
    requires
        !(p.len() > 0 && p[0] == '/'),
    ensures
        lacks(spec_page_slug(p), '/'),
{
    lemma_relative_path_components(p);
    let cs = path_components(p);
    let texts = Seq::new(cs.len(), |i: int| component_text(cs[i]));
    assert forall|i: int| 0 <= i < texts.len() implies lacks(#[trigger] texts[i], '/') by {
        let c = cs[i];
        assert(relative_component(c));
        assert(texts[i] == component_text(c));
        if c[0] == cur_tag() {
            assert(component_text(c) =~= seq!['.']);
        } else if c[0] == parent_tag() {
            assert(component_text(c) =~= seq!['.', '.']);
        } else {
            assert(component_text(c) == c.drop_first());
        }
    }
    lemma_join_lacks(texts, seq!['-'], '/');
    let f = flat_name(p);
    assert(lacks(f, '/'));
    match file_name(f) {
        Some(n) => {
            lemma_path_components_len(f);
            let fc = path_components(f);
            assert(fc.last().len() <= f.len() + 1);
            lemma_last_dot(n);
            assert(stem_len(n) <= n.len());
            let m = f.len() - n.len() + stem_len(n);
            let out = f.take(m) + seq!['.', 'h', 't', 'm', 'l'];
            assert forall|i: int| 0 <= i < out.len() implies out[i] != '/' by {
                if i < m {
                    assert(out[i] == f[i]);
                }
            }
        },
        None => {},
    }
}

/// Flatten a (possibly nested) source-relative path into a single output filename, e.g.
/// `guide/install.md` -> `guide-install.html`. Every generated page lives directly under the
/// site root, so nav links are always plain filenames — no directory-relative path math needed.
pub fn page_slug(rel_path: &str) -> (r: String)
    ensures
        r@ == spec_page_slug(rel_path@),
{
    let p = chars_of(rel_path);
    let cs = components(&p);
    let ghost csv = path_components(p@);
    let mut texts: Vec<Vec<char>> = Vec::new();
    let mut i: usize = 0;
    while i < cs.len()
        invariant
            i <= cs.len(),
            csv == views(cs@),
            views(texts@) == Seq::new(csv.len(), |k: int| component_text(csv[k])).take(i as int),
        decreases cs.len() - i,
    {
        let c = &cs[i];
        assert(csv[i as int] == c@);
        let t: Vec<char> = if c.len() > 0 && c[0] == '\u{1}' {
            vec!['/']
        } else if c.len() > 0 && c[0] == '\u{2}' {
            vec!['.']
        } else if c.len() > 0 && c[0] == '\u{3}' {
            vec!['.', '.']
        } else if c.len() > 0 {
            let t = crate::text::sub_chars(c, 1, c.len());
            assert(t@ =~= c@.drop_first());
            t
        } else {
            Vec::new()
        };
        assert(t@ =~= component_text(c@));
        proof {
            crate::text::lemma_views_push(texts@, t);
        }
        texts.push(t);
        assert(views(texts@) =~= Seq::new(csv.len(), |k: int| component_text(csv[k])).take(i + 1));
        i += 1;
    }
    assert(Seq::new(csv.len(), |k: int| component_text(csv[k])).take(cs.len() as int) =~= Seq::new(
        csv.len(),
        |k: int| component_text(csv[k]),
    ));
    let sep: &[char] = &['-'];
    assert(sep@ =~= seq!['-']);
    let flat = join_chars(&texts, sep);
    assert(flat@ == flat_name(p@));
    let fcs = components(&flat);
    proof {
        lemma_path_components_len(flat@);
    }
    if fcs.len() == 0 {
        return string_of(&flat);
    }
    let last = &fcs[fcs.len() - 1];
    assert(views(fcs@).last() == last@);
    if last.len() == 0 || last[0] != '\u{4}' {
        return string_of(&flat);
    }
    let ghost n = last@.drop_first();
    assert(last@.len() <= flat@.len() + 1);
    let n_len = last.len() - 1;
    // the stem of the name: up to its last '.', unless that '.' opens the name
    let mut j = last.len();
    assert(n.take(j - 1) =~= n);
    while j > 1 && last[j - 1] != '.'
        invariant
            1 <= j <= last.len(),
            n == last@.drop_first(),
            last_dot(n) == last_dot(n.take(j - 1)),
        decreases j,
    {
        assert(n.take(j - 1).drop_last() =~= n.take(j - 2));
        j -= 1;
    }
    let stem = if j <= 2 {
        if j == 2 {
            assert(n.take(1).last() == '.');
            assert(last_dot(n.take(1)) == Some(0nat));
        } else {
            assert(n.take(0) =~= Seq::<char>::empty());
        }
        n_len
    } else {
        assert(n.take(j - 1).last() == '.');
        j - 2
    };
    assert(stem == stem_len(n));
    let keep = flat.len() - n_len + stem;
    let mut out = crate::text::sub_chars(&flat, 0, keep);
    extend_chars(&mut out, &['.', 'h', 't', 'm', 'l']);
    assert(flat@.subrange(0, keep as int) =~= flat@.take(keep as int));
    string_of(&out)
}

/// A nav entry as the templates see it: `Section.items` recurses, but the top navbar itself
/// only renders two levels deep (top-level entries, and one level of dropdown items).
#[derive(Debug)]
pub enum NavView {
    Page { title: String, href: String },
    Section { title: String, items: Vec<NavView> },
}

/// Whether `v` shows the entry `e`: pages and API references link to their page's file
/// name; sections show their items in order.
pub open spec fn nav_view_of(v: NavView, e: NavEntry) -> bool
    decreases e,
{
    match e {
        NavEntry::Page { title, path } => match v {
            NavView::Page { title: t, href } => t@ == title@ && href@ == spec_page_slug(path@),
            _ => false,
        },
        NavEntry::ApiReference { title, path } => match v {
            NavView::Page { title: t, href } => t@ == title@ && href@ == spec_page_slug(path@),
            _ => false,
        },
        NavEntry::Section { title, items } => match v {
            NavView::Section { title: t, items: vs } => t@ == title@ && nav_views_of(vs@, items@),
            _ => false,
        },
    }
}

/// Whether `vs` shows the entries `es`, one for one.
pub open spec fn nav_views_of(vs: Seq<NavView>, es: Seq<NavEntry>) -> bool
    decreases es,
{
    vs.len() == es.len() && (es.len() == 0 || (nav_views_of(vs.drop_last(), es.drop_last())
        && nav_view_of(vs.last(), es.last())))
}

pub fn build_nav(entries: &[NavEntry]) -> (r: Vec<NavView>)
    ensures
        nav_views_of(r@, entries@),
    decreases entries@,
{
    let mut out: Vec<NavView> = Vec::new();
    let mut i: usize = 0;
    while i < entries.len()
        invariant
            i <= entries@.len(),
            nav_views_of(out@, entries@.take(i as int)),
        decreases entries@.len() - i,
    {
        let v = match &entries[i] {
            NavEntry::Page { title, path } => NavView::Page {
                title: title.clone(),
                href: page_slug(path.as_str()),
            },
            NavEntry::ApiReference { title, path } => NavView::Page {
                title: title.clone(),
                href: page_slug(path.as_str()),
            },
            NavEntry::Section { title, items } => {
                assert(decreases_to!(entries@ => entries@[i as int]));
                NavView::Section { title: title.clone(), items: build_nav(items.as_slice()) }
            },
        };
        assert(nav_view_of(v, entries@[i as int]));
        let ghost before = out@;
        out.push(v);
        assert(out@.drop_last() =~= before);
        assert(entries@.take(i + 1).drop_last() =~= entries@.take(i as int));
        i += 1;
    }
    assert(entries@.take(entries@.len() as int) =~= entries@);
    out
}

pub open spec fn spec_brief_of(doc: Option<SpecDocComment>) -> Option<Seq<char>> {
    match doc {
        Some(d) => d.brief,
        None => None,
    }
}

pub open spec fn spec_description_of(doc: Option<SpecDocComment>) -> Option<Seq<char>> {
    match doc {
        Some(d) => d.description,
        None => None,
    }
}

pub open spec fn spec_returns_of(doc: Option<SpecDocComment>) -> Option<Seq<char>> {
    match doc {
        Some(d) => d.returns,
        None => None,
    }
}

pub open spec fn spec_params_of(doc: Option<SpecDocComment>) -> Seq<SpecParamDoc> {
    match doc {
        Some(d) => d.params,
        None => seq![],
    }
}

/// The brief of an optional doc comment.
pub fn brief_of(doc: &Option<DocComment>) -> (r: Option<String>)
    ensures
        r.deep_view() == spec_brief_of(doc_view(*doc)),
{
    match doc {
        Some(d) => copy_opt_string(&d.brief),
        None => None,
    }
}

/// The description of an optional doc comment.
pub fn description_of(doc: &Option<DocComment>) -> (r: Option<String>)
    ensures
        r.deep_view() == spec_description_of(doc_view(*doc)),
{
    match doc {
        Some(d) => copy_opt_string(&d.description),
        None => None,
    }
}

/// A documented parameter as the API page shows it.
#[derive(Debug)]
pub struct ParamView {
    pub name: String,
    pub description: String,
}

impl View for ParamView {
    type V = SpecParamDoc;

    open spec fn view(&self) -> SpecParamDoc {
        SpecParamDoc { name: self.name@, description: self.description@ }
    }
}

/// A function as the API page shows it.
#[derive(Debug)]
pub struct FunctionView {
    pub name: String,
    pub signature: String,
    pub line: usize,
    pub brief: Option<String>,
    pub description: Option<String>,
    pub params: Vec<ParamView>,
    pub returns: Option<String>,
}

/// A struct field or enum variant: `type_text`/`value` are mutually exclusive depending on
/// which one this represents.
#[derive(Debug)]
pub struct MemberView {
    pub name: String,
    pub type_text: Option<String>,
    pub value: Option<String>,
    pub brief: Option<String>,
}

#[derive(Debug)]
pub struct StructView {
    pub name: String,
    pub anchor: String,
    pub line: usize,
    pub brief: Option<String>,
    pub description: Option<String>,
    pub fields: Vec<MemberView>,
}

#[derive(Debug)]
pub struct EnumView {
    pub name: String,
    pub anchor: String,
    pub line: usize,
    pub brief: Option<String>,
    pub description: Option<String>,
    pub variants: Vec<MemberView>,
}

#[derive(Debug)]
pub struct TypedefView {
    pub name: String,
    pub anchor: String,
    pub line: usize,
    pub underlying: String,
    pub brief: Option<String>,
    pub description: Option<String>,
}

#[derive(Debug)]
pub struct MacroView {
    pub name: String,
    pub line: usize,
    pub params: Option<Vec<String>>,
    pub value: Option<String>,
    pub brief: Option<String>,
    pub description: Option<String>,
}

/// Everything extracted from one source file, grouped for the API reference page so readers can
/// see at a glance which header/`.c` file a function, struct, etc. belongs to.
#[derive(Debug)]
pub struct FileGroupView {
    pub file: String,
    pub anchor: String,
    pub functions: Vec<FunctionView>,
    pub structs: Vec<StructView>,
    pub enums: Vec<EnumView>,
    pub typedefs: Vec<TypedefView>,
    pub macros: Vec<MacroView>,
}

/// Whether `r` shows the function `f`, type names in its signature linked through `t`.
pub open spec fn is_function_view(r: FunctionView, f: SpecFunction, t: SpecSymbols) -> bool {
    &&& r.name@ == f.name
    &&& r.signature@ == spec_linkify(f.signature, t, None)
    &&& r.line == f.line
    &&& r.brief.deep_view() == spec_brief_of(f.doc)
    &&& r.description.deep_view() == spec_description_of(f.doc)
    &&& seq_view(r.params@) == spec_params_of(f.doc)
    &&& r.returns.deep_view() == spec_returns_of(f.doc)
}

pub open spec fn is_field_member(m: MemberView, f: SpecField, t: SpecSymbols) -> bool {
    &&& m.name@ == f.name
    &&& m.type_text.deep_view() == Some(spec_linkify(f.type_text, t, None))
    &&& m.value.deep_view() == None::<Seq<char>>
    &&& m.brief.deep_view() == spec_brief_of(f.doc)
}

pub open spec fn is_variant_member(m: MemberView, v: SpecVariant) -> bool {
    &&& m.name@ == v.name
    &&& m.type_text.deep_view() == None::<Seq<char>>
    &&& m.value.deep_view() == v.value
    &&& m.brief.deep_view() == spec_brief_of(v.doc)
}

pub open spec fn is_struct_view(r: StructView, s: SpecStruct, t: SpecSymbols) -> bool {
    &&& r.name@ == s.name
    &&& r.anchor@ == type_prefix() + s.name
    &&& r.line == s.line
    &&& r.brief.deep_view() == spec_brief_of(s.doc)
    &&& r.description.deep_view() == spec_description_of(s.doc)
    &&& r.fields@.len() == s.fields.len()
    &&& forall|i: int| 0 <= i < s.fields.len() ==> is_field_member(#[trigger] r.fields@[i], s.fields[i], t)
}

pub open spec fn is_enum_view(r: EnumView, e: SpecEnum) -> bool {
    &&& r.name@ == e.name
    &&& r.anchor@ == type_prefix() + e.name
    &&& r.line == e.line
    &&& r.brief.deep_view() == spec_brief_of(e.doc)
    &&& r.description.deep_view() == spec_description_of(e.doc)
    &&& r.variants@.len() == e.variants.len()
    &&& forall|i: int| 0 <= i < e.variants.len() ==> is_variant_member(#[trigger] r.variants@[i], e.variants[i])
}

pub open spec fn is_typedef_view(r: TypedefView, d: SpecTypedef, t: SpecSymbols) -> bool {
    &&& r.name@ == d.name
    &&& r.anchor@ == type_prefix() + d.name
    &&& r.line == d.line
    &&& r.underlying@ == spec_linkify(d.underlying, t, Some(d.name))
    &&& r.brief.deep_view() == spec_brief_of(d.doc)
    &&& r.description.deep_view() == spec_description_of(d.doc)
}

pub open spec fn is_macro_view(r: MacroView, m: SpecMacro) -> bool {
    &&& r.name@ == m.name
    &&& r.line == m.line
    &&& crate::model::opt_seq_view(r.params) == m.params
    &&& r.value.deep_view() == m.value
    &&& r.brief.deep_view() == spec_brief_of(m.doc)
    &&& r.description.deep_view() == spec_description_of(m.doc)
}

pub fn function_view(f: &Function, symbols: &SymbolTable) -> (r: FunctionView)
    ensures
        is_function_view(r, f@, symbols@),
{
    let mut params: Vec<ParamView> = Vec::new();
    let ghost ps = spec_params_of(f@.doc);
    match &f.doc {
        Some(d) => {
            let mut i: usize = 0;
            while i < d.params.len()
                invariant
                    i <= d.params.len(),
                    ps == seq_view(d.params@),
                    seq_view(params@) == ps.take(i as int),
                decreases d.params.len() - i,
            {
                let p = ParamView { name: d.params[i].name.clone(), description: d.params[i].description.clone() };
                proof {
                    lemma_seq_view_push(params@, p);
                }
                params.push(p);
                assert(ps.take(i + 1) =~= ps.take(i as int).push(p@));
                i += 1;
            }
            assert(ps.take(d.params.len() as int) =~= ps);
        },
        None => {
            assert(seq_view(params@) =~= ps);
        },
    }
    let returns_text = match &f.doc {
        Some(d) => copy_opt_string(&d.returns),
        None => None,
    };
    FunctionView {
        name: f.name.clone(),
        signature: linkify(f.signature.as_str(), symbols, None),
        line: f.line,
        brief: brief_of(&f.doc),
        description: description_of(&f.doc),
        params,
        returns: returns_text,
    }
}

pub fn struct_view(s: &Struct, symbols: &SymbolTable) -> (r: StructView)
    ensures
        is_struct_view(r, s@, symbols@),
{
    let mut fields: Vec<MemberView> = Vec::new();
    let mut i: usize = 0;
    while i < s.fields.len()
        invariant
            i <= s.fields.len(),
            fields@.len() == i,
            forall|k: int| 0 <= k < i ==> is_field_member(#[trigger] fields@[k], s@.fields[k], symbols@),
        decreases s.fields.len() - i,
    {
        let f = &s.fields[i];
        assert(s@.fields[i as int] == f@);
        let m = MemberView {
            name: f.name.clone(),
            type_text: Some(linkify(f.type_text.as_str(), symbols, None)),
            value: None,
            brief: brief_of(&f.doc),
        };
        fields.push(m);
        i += 1;
    }
    StructView {
        name: s.name.clone(),
        anchor: type_anchor(s.name.as_str()),
        line: s.line,
        brief: brief_of(&s.doc),
        description: description_of(&s.doc),
        fields,
    }
}

pub fn enum_view(e: &Enum) -> (r: EnumView)
    ensures
        is_enum_view(r, e@),
{
    let mut variants: Vec<MemberView> = Vec::new();
    let mut i: usize = 0;
    while i < e.variants.len()
        invariant
            i <= e.variants.len(),
            variants@.len() == i,
            forall|k: int| 0 <= k < i ==> is_variant_member(#[trigger] variants@[k], e@.variants[k]),
        decreases e.variants.len() - i,
    {
        let v = &e.variants[i];
        assert(e@.variants[i as int] == v@);
        let m = MemberView {
            name: v.name.clone(),
            type_text: None,
            value: copy_opt_string(&v.value),
            brief: brief_of(&v.doc),
        };
        variants.push(m);
        i += 1;
    }
    EnumView {
        name: e.name.clone(),
        anchor: type_anchor(e.name.as_str()),
        line: e.line,
        brief: brief_of(&e.doc),
        description: description_of(&e.doc),
        variants,
    }
}

pub fn typedef_view(t: &Typedef, symbols: &SymbolTable) -> (r: TypedefView)
    ensures
        is_typedef_view(r, t@, symbols@),
{
    TypedefView {
        name: t.name.clone(),
        anchor: type_anchor(t.name.as_str()),
        line: t.line,
        underlying: linkify(t.underlying.as_str(), symbols, Some(t.name.as_str())),
        brief: brief_of(&t.doc),
        description: description_of(&t.doc),
    }
}

pub fn macro_view(m: &Macro) -> (r: MacroView)
    ensures
        is_macro_view(r, m@),
{
    let params = match &m.params {
        Some(p) => Some(copy_strings(p)),
        None => None,
    };
    MacroView {
        name: m.name.clone(),
        line: m.line,
        params,
        value: copy_opt_string(&m.value),
        brief: brief_of(&m.doc),
        description: description_of(&m.doc),
    }
}

/// `t` with `name` bound to its type anchor, unless `name` is bound already.
pub open spec fn bind_type_name(t: SpecSymbols, name: Seq<char>) -> SpecSymbols {
    if lookup(t, name) is None {
        bind(t, name, type_prefix() + name)
    } else {
        t
    }
}

/// `t` with each of `names`, in order, bound as `bind_type_name` says.
pub open spec fn bind_type_names(t: SpecSymbols, names: Seq<Seq<char>>) -> SpecSymbols
    decreases names.len(),
{
    if names.len() == 0 {
        t
    } else {
        bind_type_name(bind_type_names(t, names.drop_last()), names.last())
    }
}

/// The symbol table of a document: struct names, then enum names, then typedef names, each
/// linking to its type anchor; on a name used twice the first one found wins.
pub open spec fn spec_symbols_of(doc: SpecSourceFile) -> SpecSymbols {
    bind_type_names(
        bind_type_names(bind_type_names(seq![], struct_names(doc)), enum_names(doc)),
        typedef_names(doc),
    )
}

pub open spec fn struct_names(doc: SpecSourceFile) -> Seq<Seq<char>> {
    Seq::new(doc.structs.len(), |i: int| doc.structs[i].name)
}

pub open spec fn enum_names(doc: SpecSourceFile) -> Seq<Seq<char>> {
    Seq::new(doc.enums.len(), |i: int| doc.enums[i].name)
}

pub open spec fn typedef_names(doc: SpecSourceFile) -> Seq<Seq<char>> {
    Seq::new(doc.typedefs.len(), |i: int| doc.typedefs[i].name)
}

proof fn lemma_bind_type_names(t: SpecSymbols, names: Seq<Seq<char>>, n: Seq<char>)
    ensures
        lookup(bind_type_names(t, names), n) == if names.contains(n) && lookup(t, n) is None {
            Some(type_prefix() + n)
        } else {
            lookup(t, n)
        },
    decreases names.len(),
{
    if names.len() > 0 {
        let pre = names.drop_last();
        let x = names.last();
        lemma_bind_type_names(t, pre, n);
        let b = bind_type_names(t, pre);
        assert(names.contains(n) <==> (pre.contains(n) || x == n)) by {
            if names.contains(n) {
                let i = choose|i: int| 0 <= i < names.len() && names[i] == n;
                if i < names.len() - 1 {
                    assert(pre[i] == n);
                }
            }
            if pre.contains(n) {
                let i = choose|i: int| 0 <= i < pre.len() && pre[i] == n;
                assert(names[i] == n);
            }
            if x == n {
                assert(names[names.len() - 1] == n);
            }
        }
        if lookup(b, x) is None {
            if x == n {
                lookup_after_bind(b, x, type_prefix() + x);
            } else {
                lookup_after_bind_other(b, x, type_prefix() + x, n);
            }
        }
    }
}

/// The symbol table of a document links exactly the names of its structs, enums and typedefs,
/// each to its own type anchor; function and macro names link nowhere.
pub proof fn symbols_link_type_names(doc: SpecSourceFile, name: Seq<char>)
    ensures
        lookup(spec_symbols_of(doc), name) == if struct_names(doc).contains(name) || enum_names(doc).contains(name)
            || typedef_names(doc).contains(name) {
            Some(type_prefix() + name)
        } else {
            None
        },
{
    let empty: SpecSymbols = seq![];
    let t1 = bind_type_names(empty, struct_names(doc));
    let t2 = bind_type_names(t1, enum_names(doc));
    lemma_bind_type_names(empty, struct_names(doc), name);
    lemma_bind_type_names(t1, enum_names(doc), name);
    lemma_bind_type_names(t2, typedef_names(doc), name);
}

fn bind_names_into(table: &mut SymbolTable, names: &Vec<String>)
    ensures
        final(table)@ == bind_type_names(old(table)@, seq_view(names@)),
{
    let ghost start = table@;
    let mut i: usize = 0;
    while i < names.len()
        invariant
            i <= names.len(),
            table@ == bind_type_names(start, seq_view(names@).take(i as int)),
        decreases names.len() - i,
    {
        assert(seq_view(names@).take(i + 1).drop_last() =~= seq_view(names@).take(i as int));
        assert(seq_view(names@).take(i + 1).last() == names@[i as int]@);
        let anchor = type_anchor(names[i].as_str());
        table.insert_if_absent(names[i].clone(), anchor);
        i += 1;
    }
    assert(seq_view(names@).take(names.len() as int) =~= seq_view(names@));
}

pub fn build_symbol_table(document: &Document) -> (r: SymbolTable)
    ensures
        r@ == spec_symbols_of(document@),
{
    let mut table = SymbolTable::new();
    let mut names: Vec<String> = Vec::new();
    let mut i: usize = 0;
    while i < document.structs.len()
        invariant
            i <= document.structs.len(),
            seq_view(names@) == Seq::new(document@.structs.len(), |k: int| document@.structs[k].name).take(i as int),
        decreases document.structs.len() - i,
    {
        let n = document.structs[i].name.clone();
        proof {
            lemma_seq_view_push(names@, n);
        }
        names.push(n);
        assert(seq_view(names@) =~= Seq::new(document@.structs.len(), |k: int| document@.structs[k].name).take(i + 1));
        i += 1;
    }
    assert(seq_view(names@) =~= Seq::new(document@.structs.len(), |k: int| document@.structs[k].name));
    bind_names_into(&mut table, &names);
    let mut names: Vec<String> = Vec::new();
    let mut i: usize = 0;
    while i < document.enums.len()
        invariant
            i <= document.enums.len(),
            seq_view(names@) == Seq::new(document@.enums.len(), |k: int| document@.enums[k].name).take(i as int),
        decreases document.enums.len() - i,
    {
        let n = document.enums[i].name.clone();
        proof {
            lemma_seq_view_push(names@, n);
        }
        names.push(n);
        assert(seq_view(names@) =~= Seq::new(document@.enums.len(), |k: int| document@.enums[k].name).take(i + 1));
        i += 1;
    }
    assert(seq_view(names@) =~= Seq::new(document@.enums.len(), |k: int| document@.enums[k].name));
    bind_names_into(&mut table, &names);
    let mut names: Vec<String> = Vec::new();
    let mut i: usize = 0;
    while i < document.typedefs.len()
        invariant
            i <= document.typedefs.len(),
            seq_view(names@) == Seq::new(document@.typedefs.len(), |k: int| document@.typedefs[k].name).take(i as int),
        decreases document.typedefs.len() - i,
    {
        let n = document.typedefs[i].name.clone();
        proof {
            lemma_seq_view_push(names@, n);
        }
        names.push(n);
        assert(seq_view(names@) =~= Seq::new(document@.typedefs.len(), |k: int| document@.typedefs[k].name).take(i + 1));
        i += 1;
    }
    assert(seq_view(names@) =~= Seq::new(document@.typedefs.len(), |k: int| document@.typedefs[k].name));
    bind_names_into(&mut table, &names);
    table
}

/// Indices of the items of `files` equal to `f`, in order.
pub open spec fn positions_of(files: Seq<Seq<char>>, f: Seq<char>) -> Seq<int>
    decreases files.len(),
{
    if files.len() == 0 {
        seq![]
    } else {
        let p = positions_of(files.drop_last(), f);
        if files.last() == f {
            p.push(files.len() - 1)
        } else {
            p
        }
    }
}

pub open spec fn function_files(doc: SpecSourceFile) -> Seq<Seq<char>> {
    Seq::new(doc.functions.len(), |i: int| doc.functions[i].file)
}

pub open spec fn struct_files(doc: SpecSourceFile) -> Seq<Seq<char>> {
    Seq::new(doc.structs.len(), |i: int| doc.structs[i].file)
}

pub open spec fn enum_files(doc: SpecSourceFile) -> Seq<Seq<char>> {
    Seq::new(doc.enums.len(), |i: int| doc.enums[i].file)
}

pub open spec fn typedef_files(doc: SpecSourceFile) -> Seq<Seq<char>> {
    Seq::new(doc.typedefs.len(), |i: int| doc.typedefs[i].file)
}

pub open spec fn macro_files(doc: SpecSourceFile) -> Seq<Seq<char>> {
    Seq::new(doc.macros.len(), |i: int| doc.macros[i].file)
}

/// The file of every item of a document.
pub open spec fn all_files(doc: SpecSourceFile) -> Seq<Seq<char>> {
    function_files(doc) + struct_files(doc) + enum_files(doc) + typedef_files(doc) + macro_files(doc)
}

/// Whether `g` shows, for its file, the items of `doc` from that file, each kind in
/// document order, type names linked through `t`.
pub open spec fn is_file_group(g: FileGroupView, doc: SpecSourceFile, t: SpecSymbols) -> bool {
    let f = g.file@;
    let pf = positions_of(function_files(doc), f);
    let ps = positions_of(struct_files(doc), f);
    let pe = positions_of(enum_files(doc), f);
    let pt = positions_of(typedef_files(doc), f);
    let pm = positions_of(macro_files(doc), f);
    &&& g.anchor@ == spec_anchor_for(f)
    &&& g.functions@.len() == pf.len()
    &&& forall|k: int| 0 <= k < pf.len() ==> is_function_view(#[trigger] g.functions@[k], doc.functions[pf[k]], t)
    &&& g.structs@.len() == ps.len()
    &&& forall|k: int| 0 <= k < ps.len() ==> is_struct_view(#[trigger] g.structs@[k], doc.structs[ps[k]], t)
    &&& g.enums@.len() == pe.len()
    &&& forall|k: int| 0 <= k < pe.len() ==> is_enum_view(#[trigger] g.enums@[k], doc.enums[pe[k]])
    &&& g.typedefs@.len() == pt.len()
    &&& forall|k: int| 0 <= k < pt.len() ==> is_typedef_view(#[trigger] g.typedefs@[k], doc.typedefs[pt[k]], t)
    &&& g.macros@.len() == pm.len()
    &&& forall|k: int| 0 <= k < pm.len() ==> is_macro_view(#[trigger] g.macros@[k], doc.macros[pm[k]])
}

proof fn lemma_positions_step(files: Seq<Seq<char>>, f: Seq<char>, i: int)
    requires
        0 <= i < files.len(),
    ensures
        positions_of(files.take(i + 1), f) == if files[i] == f {
            positions_of(files.take(i), f).push(i)
        } else {
            positions_of(files.take(i), f)
        },
        forall|k: int| 0 <= k < positions_of(files.take(i), f).len() ==> 0 <= #[trigger] positions_of(files.take(i), f)[k] < i,
{
    assert(files.take(i + 1).drop_last() =~= files.take(i));
    assert(files.take(i + 1).last() == files[i]);
    lemma_positions_bound(files.take(i), f);
}

proof fn lemma_positions_bound(files: Seq<Seq<char>>, f: Seq<char>)
    ensures
        forall|k: int| 0 <= k < positions_of(files, f).len() ==> 0 <= #[trigger] positions_of(files, f)[k] < files.len(),
    decreases files.len(),
{
    if files.len() > 0 {
        lemma_positions_bound(files.drop_last(), f);
        let p = positions_of(files.drop_last(), f);
        if files.last() == f {
            assert forall|k: int| 0 <= k < p.push(files.len() - 1).len() implies 0 <= #[trigger] p.push(files.len() - 1)[k] < files.len() by {
                if k < p.len() {
                    assert(p.push(files.len() - 1)[k] == p[k]);
                }
            }
        }
    }
}

fn file_chars_eq(file: &String, f: &Vec<char>) -> (r: bool)
    ensures
        r == (file@ == f@),
{
    let c = chars_of(file.as_str());
    eq_chars(c.as_slice(), f.as_slice())
}

fn functions_in(doc: &Document, f: &Vec<char>, symbols: &SymbolTable) -> (r: Vec<FunctionView>)
    ensures
        r@.len() == positions_of(function_files(doc@), f@).len(),
        forall|k: int| 0 <= k < r@.len() ==> is_function_view(#[trigger] r@[k], doc@.functions[positions_of(function_files(doc@), f@)[k]], symbols@),
{
    let ghost files = function_files(doc@);
    let mut out: Vec<FunctionView> = Vec::new();
    let mut i: usize = 0;
    while i < doc.functions.len()
        invariant
            i <= doc.functions.len(),
            files == function_files(doc@),
            out@.len() == positions_of(files.take(i as int), f@).len(),
            forall|k: int| 0 <= k < out@.len() ==> is_function_view(#[trigger] out@[k], doc@.functions[positions_of(files.take(i as int), f@)[k]], symbols@),
        decreases doc.functions.len() - i,
    {
        proof {
            lemma_positions_step(files, f@, i as int);
        }
        assert(files[i as int] == doc.functions@[i as int].file@);
        if file_chars_eq(&doc.functions[i].file, f) {
            let v = function_view(&doc.functions[i], symbols);
            out.push(v);
        }
        i += 1;
    }
    assert(files.take(doc.functions.len() as int) =~= files);
    out
}

fn structs_in(doc: &Document, f: &Vec<char>, symbols: &SymbolTable) -> (r: Vec<StructView>)
    ensures
        r@.len() == positions_of(struct_files(doc@), f@).len(),
        forall|k: int| 0 <= k < r@.len() ==> is_struct_view(#[trigger] r@[k], doc@.structs[positions_of(struct_files(doc@), f@)[k]], symbols@),
{
    let ghost files = struct_files(doc@);
    let mut out: Vec<StructView> = Vec::new();
    let mut i: usize = 0;
    while i < doc.structs.len()
        invariant
            i <= doc.structs.len(),
            files == struct_files(doc@),
            out@.len() == positions_of(files.take(i as int), f@).len(),
            forall|k: int| 0 <= k < out@.len() ==> is_struct_view(#[trigger] out@[k], doc@.structs[positions_of(files.take(i as int), f@)[k]], symbols@),
        decreases doc.structs.len() - i,
    {
        proof {
            lemma_positions_step(files, f@, i as int);
        }
        assert(files[i as int] == doc.structs@[i as int].file@);
        if file_chars_eq(&doc.structs[i].file, f) {
            let v = struct_view(&doc.structs[i], symbols);
            out.push(v);
        }
        i += 1;
    }
    assert(files.take(doc.structs.len() as int) =~= files);
    out
}

fn enums_in(doc: &Document, f: &Vec<char>) -> (r: Vec<EnumView>)
    ensures
        r@.len() == positions_of(enum_files(doc@), f@).len(),
        forall|k: int| 0 <= k < r@.len() ==> is_enum_view(#[trigger] r@[k], doc@.enums[positions_of(enum_files(doc@), f@)[k]]),
{
    let ghost files = enum_files(doc@);
    let mut out: Vec<EnumView> = Vec::new();
    let mut i: usize = 0;
    while i < doc.enums.len()
        invariant
            i <= doc.enums.len(),
            files == enum_files(doc@),
            out@.len() == positions_of(files.take(i as int), f@).len(),
            forall|k: int| 0 <= k < out@.len() ==> is_enum_view(#[trigger] out@[k], doc@.enums[positions_of(files.take(i as int), f@)[k]]),
        decreases doc.enums.len() - i,
    {
        proof {
            lemma_positions_step(files, f@, i as int);
        }
        assert(files[i as int] == doc.enums@[i as int].file@);
        if file_chars_eq(&doc.enums[i].file, f) {
            let v = enum_view(&doc.enums[i]);
            out.push(v);
        }
        i += 1;
    }
    assert(files.take(doc.enums.len() as int) =~= files);
    out
}

fn typedefs_in(doc: &Document, f: &Vec<char>, symbols: &SymbolTable) -> (r: Vec<TypedefView>)
    ensures
        r@.len() == positions_of(typedef_files(doc@), f@).len(),
        forall|k: int| 0 <= k < r@.len() ==> is_typedef_view(#[trigger] r@[k], doc@.typedefs[positions_of(typedef_files(doc@), f@)[k]], symbols@),
{
    let ghost files = typedef_files(doc@);
    let mut out: Vec<TypedefView> = Vec::new();
    let mut i: usize = 0;
    while i < doc.typedefs.len()
        invariant
            i <= doc.typedefs.len(),
            files == typedef_files(doc@),
            out@.len() == positions_of(files.take(i as int), f@).len(),
            forall|k: int| 0 <= k < out@.len() ==> is_typedef_view(#[trigger] out@[k], doc@.typedefs[positions_of(files.take(i as int), f@)[k]], symbols@),
        decreases doc.typedefs.len() - i,
    {
        proof {
            lemma_positions_step(files, f@, i as int);
        }
        assert(files[i as int] == doc.typedefs@[i as int].file@);
        if file_chars_eq(&doc.typedefs[i].file, f) {
            let v = typedef_view(&doc.typedefs[i], symbols);
            out.push(v);
        }
        i += 1;
    }
    assert(files.take(doc.typedefs.len() as int) =~= files);
    out
}

fn macros_in(doc: &Document, f: &Vec<char>) -> (r: Vec<MacroView>)
    ensures
        r@.len() == positions_of(macro_files(doc@), f@).len(),
        forall|k: int| 0 <= k < r@.len() ==> is_macro_view(#[trigger] r@[k], doc@.macros[positions_of(macro_files(doc@), f@)[k]]),
{
    let ghost files = macro_files(doc@);
    let mut out: Vec<MacroView> = Vec::new();
    let mut i: usize = 0;
    while i < doc.macros.len()
        invariant
            i <= doc.macros.len(),
            files == macro_files(doc@),
            out@.len() == positions_of(files.take(i as int), f@).len(),
            forall|k: int| 0 <= k < out@.len() ==> is_macro_view(#[trigger] out@[k], doc@.macros[positions_of(files.take(i as int), f@)[k]]),
        decreases doc.macros.len() - i,
    {
        proof {
            lemma_positions_step(files, f@, i as int);
        }
        assert(files[i as int] == doc.macros@[i as int].file@);
        if file_chars_eq(&doc.macros[i].file, f) {
            let v = macro_view(&doc.macros[i]);
            out.push(v);
        }
        i += 1;
    }
    assert(files.take(doc.macros.len() as int) =~= files);
    out
}

fn push_file(out: &mut Vec<Vec<char>>, file: &String)
    ensures
        views(final(out)@) == views(old(out)@).push(file@),
{
    let c = chars_of(file.as_str());
    proof {
        crate::text::lemma_views_push(out@, c);
    }
    out.push(c);
}

fn all_file_names(doc: &Document) -> (r: Vec<Vec<char>>)
    ensures
        views(r@) == all_files(doc@),
{
    let mut out: Vec<Vec<char>> = Vec::new();
    let mut i: usize = 0;
    while i < doc.functions.len()
        invariant
            i <= doc.functions.len(),
            views(out@) == function_files(doc@).take(i as int),
        decreases doc.functions.len() - i,
    {
        push_file(&mut out, &doc.functions[i].file);
        assert(views(out@) =~= function_files(doc@).take(i + 1));
        i += 1;
    }
    let ghost a = function_files(doc@);
    assert(views(out@) =~= a);
    let mut i: usize = 0;
    while i < doc.structs.len()
        invariant
            i <= doc.structs.len(),
            views(out@) == a + struct_files(doc@).take(i as int),
        decreases doc.structs.len() - i,
    {
        push_file(&mut out, &doc.structs[i].file);
        assert(views(out@) =~= a + struct_files(doc@).take(i + 1));
        i += 1;
    }
    let ghost a = a + struct_files(doc@);
    assert(views(out@) =~= a);
    let mut i: usize = 0;
    while i < doc.enums.len()
        invariant
            i <= doc.enums.len(),
            views(out@) == a + enum_files(doc@).take(i as int),
        decreases doc.enums.len() - i,
    {
        push_file(&mut out, &doc.enums[i].file);
        assert(views(out@) =~= a + enum_files(doc@).take(i + 1));
        i += 1;
    }
    let ghost a = a + enum_files(doc@);
    assert(views(out@) =~= a);
    let mut i: usize = 0;
    while i < doc.typedefs.len()
        invariant
            i <= doc.typedefs.len(),
            views(out@) == a + typedef_files(doc@).take(i as int),
        decreases doc.typedefs.len() - i,
    {
        push_file(&mut out, &doc.typedefs[i].file);
        assert(views(out@) =~= a + typedef_files(doc@).take(i + 1));
        i += 1;
    }
    let ghost a = a + typedef_files(doc@);
    assert(views(out@) =~= a);
    let mut i: usize = 0;
    while i < doc.macros.len()
        invariant
            i <= doc.macros.len(),
            views(out@) == a + macro_files(doc@).take(i as int),
        decreases doc.macros.len() - i,
    {
        push_file(&mut out, &doc.macros[i].file);
        assert(views(out@) =~= a + macro_files(doc@).take(i + 1));
        i += 1;
    }
    assert(views(out@) =~= all_files(doc@));
    out
}

/// Whether `s` is strictly increasing in the order of `str`.
pub open spec fn strictly_sorted(s: Seq<Seq<char>>) -> bool {
    forall|i: int, j: int| 0 <= i < j < s.len() ==> chars_lt(#[trigger] s[i], #[trigger] s[j])
}

/// The distinct items of `all`, in the order of `str`.
fn sorted_distinct(all: &Vec<Vec<char>>) -> (r: Vec<Vec<char>>)
    ensures
        strictly_sorted(views(r@)),
        forall|i: int| 0 <= i < r@.len() ==> views(all@).contains(#[trigger] views(r@)[i]),
        forall|k: int| 0 <= k < all@.len() ==> views(r@).contains(#[trigger] views(all@)[k]),
{
    let ghost av = views(all@);
    let mut out: Vec<Vec<char>> = Vec::new();
    let mut i: usize = 0;
    while i < all.len()
        invariant
            i <= all.len(),
            av == views(all@),
            strictly_sorted(views(out@)),
            forall|t: int| 0 <= t < out@.len() ==> av.take(i as int).contains(#[trigger] views(out@)[t]),
            forall|k: int| 0 <= k < i ==> views(out@).contains(#[trigger] av[k]),
        decreases all.len() - i,
    {
        let x = &all[i];
        assert(av[i as int] == x@);
        let ghost ov = views(out@);
        let mut j: usize = 0;
        while j < out.len() && chars_less(out[j].as_slice(), x.as_slice())
            invariant
                j <= out@.len(),
                ov == views(out@),
                forall|t: int| 0 <= t < j ==> chars_lt(#[trigger] ov[t], x@),
            decreases out@.len() - j,
        {
            assert(ov[j as int] == out@[j as int]@);
            j += 1;
        }
        if j < out.len() && eq_chars(out[j].as_slice(), x.as_slice()) {
            assert(ov[j as int] == x@);
            assert forall|t: int| 0 <= t < out@.len() implies av.take(i + 1).contains(#[trigger] views(out@)[t]) by {
                let w = choose|w: int| 0 <= w < i && av.take(i as int)[w] == views(out@)[t];
                assert(av.take(i + 1)[w] == av.take(i as int)[w]);
            }
            assert forall|k: int| 0 <= k < i + 1 implies views(out@).contains(#[trigger] av[k]) by {
                if k == i {
                    assert(views(out@)[j as int] == av[k]);
                }
            }
        } else {
            proof {
                if j < out@.len() {
                    assert(ov[j as int] == out@[j as int]@);
                    assert(!chars_lt(ov[j as int], x@));
                    lemma_chars_lt_total(ov[j as int], x@);
                    assert(chars_lt(x@, ov[j as int]));
                }
            }
            let c = crate::text::sub_chars(x, 0, x.len());
            assert(c@ =~= x@);
            out.insert(j, c);
            assert(views(out@) =~= ov.insert(j as int, x@));
            assert forall|a: int, b: int| 0 <= a < b < views(out@).len() implies chars_lt(#[trigger] views(out@)[a], #[trigger] views(out@)[b]) by {
                let nv = views(out@);
                if b < j {
                    assert(nv[a] == ov[a] && nv[b] == ov[b]);
                } else if b == j {
                    assert(nv[a] == ov[a] && nv[b] == x@);
                } else if a == j {
                    assert(nv[a] == x@ && nv[b] == ov[b - 1]);
                    if b - 1 > j {
                        lemma_chars_lt_transitive(x@, ov[j as int], ov[b - 1]);
                    }
                } else if a < j {
                    assert(nv[a] == ov[a] && nv[b] == ov[b - 1]);
                    assert(chars_lt(ov[a], x@));
                    assert(chars_lt(x@, ov[j as int]));
                    lemma_chars_lt_transitive(ov[a], x@, ov[j as int]);
                    if b - 1 > j {
                        lemma_chars_lt_transitive(ov[a], ov[j as int], ov[b - 1]);
                    }
                } else {
                    assert(nv[a] == ov[a - 1] && nv[b] == ov[b - 1]);
                }
            }
            assert forall|t: int| 0 <= t < out@.len() implies av.take(i + 1).contains(#[trigger] views(out@)[t]) by {
                let nv = views(out@);
                if t == j {
                    assert(av.take(i + 1)[i as int] == x@);
                } else {
                    let u = if t < j { t } else { t - 1 };
                    assert(nv[t] == ov[u]);
                    let w = choose|w: int| 0 <= w < i && av.take(i as int)[w] == ov[u];
                    assert(av.take(i + 1)[w] == av.take(i as int)[w]);
                }
            }
            assert forall|k: int| 0 <= k < i + 1 implies views(out@).contains(#[trigger] av[k]) by {
                let nv = views(out@);
                if k == i {
                    assert(nv[j as int] == av[k]);
                } else {
                    let w = choose|w: int| 0 <= w < ov.len() && ov[w] == av[k];
                    if w < j {
                        assert(nv[w] == ov[w]);
                    } else {
                        assert(nv[w + 1] == ov[w]);
                    }
                }
            }
        }
        i += 1;
    }
    assert(av.take(all.len() as int) =~= av);
    out
}

/// Whether some group of `gs` is for the file `f`.
pub open spec fn has_group(gs: Seq<FileGroupView>, f: Seq<char>) -> bool {
    exists|i: int| 0 <= i < gs.len() && #[trigger] gs[i].file@ == f
}

/// The items of `document` grouped by source file, groups in the order of their file paths
/// as text, one group per file that holds an item.
#[verifier::spinoff_prover]
pub fn group_by_file(document: &Document) -> (r: Vec<FileGroupView>)
    ensures
        forall|i: int, j: int| 0 <= i < j < r@.len() ==> chars_lt(#[trigger] r@[i].file@, #[trigger] r@[j].file@),
        forall|i: int| 0 <= i < r@.len() ==> all_files(document@).contains(#[trigger] r@[i].file@),
        forall|k: int| 0 <= k < all_files(document@).len() ==> has_group(r@, #[trigger] all_files(document@)[k]),
        forall|i: int| 0 <= i < r@.len() ==> is_file_group(#[trigger] r@[i], document@, spec_symbols_of(document@)),
{
    let symbols = build_symbol_table(document);
    let all = all_file_names(document);
    let files = sorted_distinct(&all);
    let ghost fv = views(files@);
    let mut groups: Vec<FileGroupView> = Vec::new();
    let mut i: usize = 0;
    while i < files.len()
        invariant
            i <= files.len(),
            fv == views(files@),
            groups@.len() == i,
            symbols@ == spec_symbols_of(document@),
            forall|t: int| 0 <= t < i ==> #[trigger] groups@[t].file@ == fv[t],
            forall|t: int| 0 <= t < i ==> is_file_group(#[trigger] groups@[t], document@, symbols@),
        decreases files.len() - i,
    {
        let f = &files[i];
        assert(fv[i as int] == f@);
        let g = FileGroupView {
            file: string_of(f),
            anchor: anchor_for(string_of(f).as_str()),
            functions: functions_in(document, f, &symbols),
            structs: structs_in(document, f, &symbols),
            enums: enums_in(document, f),
            typedefs: typedefs_in(document, f, &symbols),
            macros: macros_in(document, f),
        };
        groups.push(g);
        i += 1;
    }
    assert forall|k: int| 0 <= k < all_files(document@).len() implies has_group(groups@, #[trigger] all_files(document@)[k]) by {
        assert(views(all@)[k] == all_files(document@)[k]);
        assert(fv.contains(views(all@)[k]));
        let w = choose|w: int| 0 <= w < fv.len() && fv[w] == views(all@)[k];
        assert(groups@[w].file@ == fv[w]);
    }
    assert forall|t: int| 0 <= t < groups@.len() implies all_files(document@).contains(#[trigger] groups@[t].file@) by {
        assert(groups@[t].file@ == fv[t]);
        assert(views(all@).contains(fv[t]));
    }
    assert forall|a: int, b: int| 0 <= a < b < groups@.len() implies chars_lt(#[trigger] groups@[a].file@, #[trigger] groups@[b].file@) by {
        assert(groups@[a].file@ == fv[a]);
        assert(groups@[b].file@ == fv[b]);
    }
    groups
}

} // verus!
