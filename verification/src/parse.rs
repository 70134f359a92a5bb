//! Extracting documented declarations from the syntax tree of a C source:
//! functions, structs and unions, enums, typedefs and macros, each with the
//! Doxygen comment that documents it.
use vstd::prelude::*;
use vstd::utf8::{decode_utf8, encode_utf8, valid_utf8};

use crate::doxycomment::{spec_is_doc_comment, spec_is_trailing_marker, spec_parse};
use crate::model::{
    seq_view, lemma_seq_view_push,
    DocComment, Enum, Field, Function, Macro, SourceFile, SpecDocComment, SpecEnum, SpecField,
    SpecFunction, SpecMacro, SpecSourceFile, SpecStruct, SpecTypedef, SpecVariant, Struct,
    Typedef, Variant,
};
use crate::syntax::{
    SyntaxError, SyntaxTree, c_syntax_nodes, lowered, raw_shaped, rows_fit, syntax_tree, wf,
};
use crate::text::{chars_of, eq_chars, find_char, trim, trim_end, trim_end_matches, utf8_text};

verus! {

pub open spec fn kind_of(t: SyntaxTree, i: int) -> Seq<char> {
    t.nodes@[i].kind@
}

pub open spec fn kids(t: SyntaxTree, i: int) -> Seq<usize> {
    t.children@[i]@
}

/// The source text of node `i`, when its byte range lies in `src` and is valid UTF-8.
pub open spec fn node_text(t: SyntaxTree, src: Seq<u8>, i: int) -> Option<Seq<char>> {
    let n = t.nodes@[i];
    if n.start_byte <= n.end_byte && n.end_byte <= src.len() && valid_utf8(
        src.subrange(n.start_byte as int, n.end_byte as int),
    ) {
        Some(decode_utf8(src.subrange(n.start_byte as int, n.end_byte as int)))
    } else {
        None
    }
}

/// The first child of node `i`, from its `k`-th on, that fills the field `name`.
pub open spec fn field_child_from(t: SyntaxTree, i: int, name: Seq<char>, k: int) -> Option<usize>
    decreases kids(t, i).len() - k,
{
    if k < 0 || k >= kids(t, i).len() {
        None
    } else if t.nodes@[kids(t, i)[k] as int].field.deep_view() == Some(name) {
        Some(kids(t, i)[k])
    } else {
        field_child_from(t, i, name, k + 1)
    }
}

/// The first child of node `i` that fills the field `name` (`Node::child_by_field_name`).
pub open spec fn field_child(t: SyntaxTree, i: int, name: Seq<char>) -> Option<usize> {
    field_child_from(t, i, name, 0)
}

/// The sibling just before node `i`.
pub open spec fn prev_sibling(t: SyntaxTree, i: int) -> Option<usize> {
    match t.nodes@[i].parent {
        Some(p) => if t.nodes@[i].slot > 0 {
            Some(kids(t, p as int)[t.nodes@[i].slot - 1])
        } else {
            None
        },
        None => None,
    }
}

/// The first named child of node `p` from its `k`-th on.
pub open spec fn first_named_from(t: SyntaxTree, p: int, k: int) -> Option<usize>
    decreases kids(t, p).len() - k,
{
    if k < 0 || k >= kids(t, p).len() {
        None
    } else if t.nodes@[kids(t, p)[k] as int].named {
        Some(kids(t, p)[k])
    } else {
        first_named_from(t, p, k + 1)
    }
}

/// The first named sibling after node `i`.
pub open spec fn next_named_sibling(t: SyntaxTree, i: int) -> Option<usize> {
    match t.nodes@[i].parent {
        Some(p) => first_named_from(t, p as int, t.nodes@[i].slot + 1),
        None => None,
    }
}

/// Whether a text is exactly the literal `lit`.
fn is_text(s: &String, lit: &str) -> (r: bool)
    ensures
        r == (s@ == lit@),
{
    let a = chars_of(s.as_str());
    let b = chars_of(lit);
    eq_chars(a.as_slice(), b.as_slice())
}

/// The source text of node `i` (`Node::utf8_text`).
fn text_of_node(t: &SyntaxTree, src: &[u8], i: usize) -> (r: Option<String>)
    requires
        i < t.nodes@.len(),
    ensures
        r.deep_view() == node_text(*t, src@, i as int),
{
    let n = &t.nodes[i];
    if n.start_byte <= n.end_byte && n.end_byte <= src.len() {
        let bytes = vstd::slice::slice_subrange(src, n.start_byte, n.end_byte);
        match utf8_text(bytes) {
            Some(s) => Some(s.to_owned()),
            None => None,
        }
    } else {
        None
    }
}

/// The first child of node `i` filling the field `name`.
fn child_by_field(t: &SyntaxTree, i: usize, name: &str) -> (r: Option<usize>)
    requires
        wf(*t),
        i < t.nodes@.len(),
    ensures
        r == field_child(*t, i as int, name@),
        r matches Some(c) ==> i < c < t.nodes@.len(),
{
    let ghost ks = kids(*t, i as int);
    let kids_v = &t.children[i];
    let mut k: usize = 0;
    while k < kids_v.len()
        invariant
            wf(*t),
            i < t.nodes@.len(),
            ks == kids(*t, i as int),
            kids_v@ == ks,
            k <= ks.len(),
            field_child(*t, i as int, name@) == field_child_from(*t, i as int, name@, k as int),
        decreases ks.len() - k,
    {
        let c = kids_v[k];
        assert(i < c < t.nodes@.len());
        let f = &t.nodes[c].field;
        let hit = match f {
            Some(s) => is_text(s, name),
            None => false,
        };
        if hit {
            return Some(c);
        }
        k += 1;
    }
    None
}

/// The sibling just before node `i` (`Node::prev_sibling`).
fn prev_sibling_of(t: &SyntaxTree, i: usize) -> (r: Option<usize>)
    requires
        wf(*t),
        i < t.nodes@.len(),
    ensures
        r == prev_sibling(*t, i as int),
        r matches Some(s) ==> s < t.nodes@.len(),
{
    match t.nodes[i].parent {
        Some(p) => {
            assert(i >= 1);
            let slot = t.nodes[i].slot;
            if slot > 0 {
                let s = t.children[p][slot - 1];
                assert(0 <= p < t.nodes@.len());
                Some(s)
            } else {
                None
            }
        },
        None => None,
    }
}

/// The first named sibling after node `i` (`Node::next_named_sibling`).
fn next_named_sibling_of(t: &SyntaxTree, i: usize) -> (r: Option<usize>)
    requires
        wf(*t),
        i < t.nodes@.len(),
    ensures
        r == next_named_sibling(*t, i as int),
        r matches Some(s) ==> s < t.nodes@.len(),
{
    match t.nodes[i].parent {
        Some(p) => {
            assert(i >= 1);
            let ghost ks = kids(*t, p as int);
            let kids_v = &t.children[p];
            assert(t.nodes@[i as int].parent == Some(p));
            assert(t.nodes@[i as int].slot < kids_v@.len());
            let klen = kids_v.len();
            let mut k = t.nodes[i].slot + 1;
            assert(next_named_sibling(*t, i as int) == first_named_from(*t, p as int, k as int));
            while k < kids_v.len()
                invariant
                    wf(*t),
                    p < t.nodes@.len(),
                    ks == kids(*t, p as int),
                    kids_v@ == ks,
                    next_named_sibling(*t, i as int) == first_named_from(*t, p as int, k as int),
                    k >= 1,
                decreases ks.len() - k,
            {
                let c = kids_v[k];
                assert(c < t.nodes@.len());
                if t.nodes[c].named {
                    assert(first_named_from(*t, p as int, k as int) == Some(c));
                    return Some(c);
                }
                k += 1;
            }
            None
        },
        None => None,
    }
}

/// The function declarator that the declarator `d` declares, reached through its chain of
/// `declarator` fields (`f(void)`, `*name(void)`, `(*cb)(int)`, `g(void) = ...`).
pub open spec fn function_declarator_of(t: SyntaxTree, d: int) -> Option<usize>
    decreases t.nodes@.len() - d,
{
    if !(0 <= d < t.nodes@.len()) {
        None
    } else if kind_of(t, d) == "function_declarator"@ {
        Some(d as usize)
    } else {
        match field_child(t, d, "declarator"@) {
            Some(c) => if d < c < t.nodes@.len() {
                function_declarator_of(t, c as int)
            } else {
                None
            },
            None => None,
        }
    }
}

/// The first function declarator among the `declarator` children of node `i`, from its
/// `k`-th child on.
pub open spec fn declared_function_among(t: SyntaxTree, i: int, k: int) -> Option<usize>
    decreases kids(t, i).len() - k,
{
    if k < 0 || k >= kids(t, i).len() {
        None
    } else {
        let c = kids(t, i)[k] as int;
        let here = if t.nodes@[c].field.deep_view() == Some("declarator"@) {
            function_declarator_of(t, c)
        } else {
            None
        };
        match here {
            Some(d) => Some(d),
            None => declared_function_among(t, i, k + 1),
        }
    }
}

/// The function declarator that node `i` declares: the first one reached from any of its
/// declarators (`int a, f(void);` declares `f`), never from inside its type, so a
/// declaration such as `struct S { int (*cb)(int); } s;` declares no function.
pub open spec fn declared_function(t: SyntaxTree, i: int) -> Option<usize> {
    declared_function_among(t, i, 0)
}

/// Whether a node kind names an identifier.
pub open spec fn is_identifier_kind(k: Seq<char>) -> bool {
    k == "identifier"@ || k == "type_identifier"@ || k == "field_identifier"@
}

/// The identifier a declarator declares, unwrapping pointer, array, function and
/// parenthesized declarators (`char *foo(void)`, `int (*Callback)(int, int)`, `char name[32]`):
/// an identifier's own text; else the name in its `declarator` field; else the name in the
/// first of its named children that has one.
pub open spec fn declarator_name(t: SyntaxTree, src: Seq<u8>, i: int) -> Option<Seq<char>>
    decreases t.nodes@.len() - i, 1int, 0int,
{
    if !(0 <= i < t.nodes@.len()) {
        None
    } else if is_identifier_kind(kind_of(t, i)) {
        node_text(t, src, i)
    } else {
        let inner = match field_child(t, i, "declarator"@) {
            Some(c) => if i < c < t.nodes@.len() {
                declarator_name(t, src, c as int)
            } else {
                None
            },
            None => None,
        };
        match inner {
            Some(n) => Some(n),
            None => declarator_name_among(t, src, i, 0),
        }
    }
}

/// The name that the first of the named children of node `i`, from its `k`-th child on,
/// declares.
pub open spec fn declarator_name_among(t: SyntaxTree, src: Seq<u8>, i: int, k: int) -> Option<Seq<char>>
    decreases t.nodes@.len() - i, 0int, kids(t, i).len() - k,
{
    if !(0 <= i < t.nodes@.len()) || k < 0 || k >= kids(t, i).len() {
        None
    } else {
        let c = kids(t, i)[k] as int;
        let here = if i < c < t.nodes@.len() && t.nodes@[c].named {
            declarator_name(t, src, c)
        } else {
            None
        };
        match here {
            Some(n) => Some(n),
            None => declarator_name_among(t, src, i, k + 1),
        }
    }
}

/// A declaration's signature: its text up to (not including) the body or trailing semicolon.
pub open spec fn signature_text(t: SyntaxTree, src: Seq<u8>, i: int) -> Seq<char> {
    let full = match node_text(t, src, i) {
        Some(s) => s,
        None => seq![],
    };
    match find_char(full, '{') {
        Some(k) => trim_end(full.take(k as int)),
        None => trim_end(trim_end_matches(full, seq![';'])),
    }
}

/// The trimmed text of the child of node `i` filling `field`.
pub open spec fn field_text(t: SyntaxTree, src: Seq<u8>, i: int, field: Seq<char>) -> Option<Seq<char>> {
    match field_child(t, i, field) {
        Some(c) => match node_text(t, src, c as int) {
            Some(s) => Some(trim(s)),
            None => None,
        },
        None => None,
    }
}

/// A Doxygen comment of the leading form (documenting what follows it).
pub open spec fn doxygen_leading(text: Seq<char>) -> bool {
    spec_is_doc_comment(text) && !spec_is_trailing_marker(text)
}

/// The raw text of a leading Doxygen comment immediately preceding node `i`.
pub open spec fn preceding_doc_text(t: SyntaxTree, src: Seq<u8>, i: int) -> Option<Seq<char>> {
    match prev_sibling(t, i) {
        Some(s) => if kind_of(t, s as int) == "comment"@ {
            match node_text(t, src, s as int) {
                Some(text) => if doxygen_leading(text) {
                    Some(text)
                } else {
                    None
                },
                None => None,
            }
        } else {
            None
        },
        None => None,
    }
}

pub open spec fn parsed_doc(text: Option<Seq<char>>) -> Option<SpecDocComment> {
    match text {
        Some(raw) => Some(spec_parse(raw)),
        None => None,
    }
}

/// The doc comment of a struct field or enum variant: a trailing-marker comment that
/// follows it on the row where it ends (`int x; /**< X. */`), else a leading one before it.
pub open spec fn member_doc(t: SyntaxTree, src: Seq<u8>, i: int) -> Option<SpecDocComment> {
    let trailing = match next_named_sibling(t, i) {
        Some(n) => if kind_of(t, n as int) == "comment"@ && t.nodes@[n as int].start_row
            == t.nodes@[i].end_row {
            match node_text(t, src, n as int) {
                Some(text) => if spec_is_trailing_marker(text) {
                    Some(spec_parse(text))
                } else {
                    None
                },
                None => None,
            }
        } else {
            None
        },
        None => None,
    };
    match trailing {
        Some(d) => Some(d),
        None => parsed_doc(preceding_doc_text(t, src, i)),
    }
}

/// The function declarator that the declarator `d` declares through its `declarator` fields.
fn function_declarator_of_node(t: &SyntaxTree, d: usize) -> (r: Option<usize>)
    requires
        wf(*t),
        d < t.nodes@.len(),
    ensures
        r == function_declarator_of(*t, d as int),
        r matches Some(x) ==> x < t.nodes@.len(),
{
    let mut cur = d;
    loop
        invariant
            wf(*t),
            cur < t.nodes@.len(),
            function_declarator_of(*t, d as int) == function_declarator_of(*t, cur as int),
        decreases t.nodes@.len() - cur,
    {
        if is_text(&t.nodes[cur].kind, "function_declarator") {
            return Some(cur);
        }
        match child_by_field(t, cur, "declarator") {
            Some(c) => {
                cur = c;
            },
            None => {
                return None;
            },
        }
    }
}

/// The function declarator that node `i` declares through one of its declarators.
fn declared_function_of(t: &SyntaxTree, i: usize) -> (r: Option<usize>)
    requires
        wf(*t),
        i < t.nodes@.len(),
    ensures
        r == declared_function(*t, i as int),
        r matches Some(d) ==> d < t.nodes@.len(),
{
    let kids_v = &t.children[i];
    let mut k: usize = 0;
    while k < kids_v.len()
        invariant
            wf(*t),
            i < t.nodes@.len(),
            kids_v@ == kids(*t, i as int),
            declared_function(*t, i as int) == declared_function_among(*t, i as int, k as int),
        decreases kids_v@.len() - k,
    {
        let c = kids_v[k];
        assert(i < c < t.nodes@.len());
        let is_declarator = match &t.nodes[c].field {
            Some(f) => is_text(f, "declarator"),
            None => false,
        };
        if is_declarator {
            match function_declarator_of_node(t, c) {
                Some(d) => {
                    return Some(d);
                },
                None => {},
            }
        }
        k += 1;
    }
    None
}

/// Whether `k` names an identifier node.
fn is_identifier_node(t: &SyntaxTree, i: usize) -> (r: bool)
    requires
        i < t.nodes@.len(),
    ensures
        r == is_identifier_kind(kind_of(*t, i as int)),
{
    let k = &t.nodes[i].kind;
    is_text(k, "identifier") || is_text(k, "type_identifier") || is_text(k, "field_identifier")
}

/// The identifier a declarator declares.
fn declarator_name_of(t: &SyntaxTree, src: &[u8], i: usize) -> (r: Option<String>)
    requires
        wf(*t),
        i < t.nodes@.len(),
    ensures
        r.deep_view() == declarator_name(*t, src@, i as int),
    decreases t.nodes@.len() - i,
{
    if is_identifier_node(t, i) {
        return text_of_node(t, src, i);
    }
    match child_by_field(t, i, "declarator") {
        Some(c) => {
            match declarator_name_of(t, src, c) {
                Some(n) => {
                    return Some(n);
                },
                None => {},
            }
        },
        None => {},
    }
    let kids_v = &t.children[i];
    let mut k: usize = 0;
    while k < kids_v.len()
        invariant
            wf(*t),
            i < t.nodes@.len(),
            kids_v@ == kids(*t, i as int),
            declarator_name(*t, src@, i as int) == declarator_name_among(*t, src@, i as int, k as int),
        decreases kids_v@.len() - k,
    {
        let c = kids_v[k];
        assert(i < c < t.nodes@.len());
        if t.nodes[c].named {
            match declarator_name_of(t, src, c) {
                Some(n) => {
                    return Some(n);
                },
                None => {},
            }
        }
        k += 1;
    }
    None
}

/// A declaration's signature: its text up to (not including) the body or trailing semicolon.
fn signature_text_of(t: &SyntaxTree, src: &[u8], i: usize) -> (r: String)
    requires
        i < t.nodes@.len(),
    ensures
        r@ == signature_text(*t, src@, i as int),
{
    let full = match text_of_node(t, src, i) {
        Some(s) => chars_of(s.as_str()),
        None => Vec::new(),
    };
    match crate::text::find_char_in(&full, 0, full.len(), '{') {
        Some(k) => {
            assert(full@.subrange(0, full@.len() as int) =~= full@);
            proof {
                crate::text::lemma_find_char(full@, '{');
            }
            let e = crate::text::trim_end_index(&full, 0, k);
            assert(full@.take(k as int) =~= full@.subrange(0, k as int));
            crate::text::string_of_range(&full, 0, e)
        },
        None => {
            assert(full@.subrange(0, full@.len() as int) =~= full@);
            let mut end = full.len();
            let semi: &[char] = &[';'];
            assert(semi@ =~= seq![';']);
            while crate::text::ends_with_at(&full, 0, end, semi)
                invariant
                    end <= full@.len(),
                    semi@ == seq![';'],
                    trim_end_matches(full@, seq![';']) == trim_end_matches(full@.subrange(0, end as int), seq![';']),
                decreases end,
            {
                assert(full@.subrange(0, end as int).subrange(0, end - 1) =~= full@.subrange(0, end - 1));
                end = end - 1;
            }
            let e = crate::text::trim_end_index(&full, 0, end);
            crate::text::string_of_range(&full, 0, e)
        },
    }
}

/// The trimmed text of the child of node `i` filling `field`.
fn text_of(t: &SyntaxTree, src: &[u8], i: usize, field: &str) -> (r: Option<String>)
    requires
        wf(*t),
        i < t.nodes@.len(),
    ensures
        r.deep_view() == field_text(*t, src@, i as int, field@),
{
    match child_by_field(t, i, field) {
        Some(c) => match text_of_node(t, src, c) {
            Some(s) => {
                let v = chars_of(s.as_str());
                let tv = crate::text::trimmed(&v);
                Some(crate::text::string_of(&tv))
            },
            None => None,
        },
        None => None,
    }
}

fn doxygen_leading_text(text: &str) -> (r: bool)
    ensures
        r == doxygen_leading(text@),
{
    crate::doxycomment::is_doc_comment(text) && !crate::doxycomment::is_trailing_marker(text)
}

/// The raw text of a leading Doxygen comment immediately preceding node `i`.
fn preceding_doc_comment(t: &SyntaxTree, src: &[u8], i: usize) -> (r: Option<String>)
    requires
        wf(*t),
        i < t.nodes@.len(),
    ensures
        r.deep_view() == preceding_doc_text(*t, src@, i as int),
{
    let s = prev_sibling_of(t, i)?;
    if !is_text(&t.nodes[s].kind, "comment") {
        return None;
    }
    let text = text_of_node(t, src, s)?;
    if doxygen_leading_text(text.as_str()) {
        Some(text)
    } else {
        None
    }
}

fn parse_doc(text: Option<String>) -> (r: Option<DocComment>)
    ensures
        crate::model::doc_view(r) == parsed_doc(text.deep_view()),
{
    match text {
        Some(raw) => Some(crate::doxycomment::parse(raw.as_str())),
        None => None,
    }
}

/// The doc comment of a struct field or enum variant.
fn member_doc_comment(t: &SyntaxTree, src: &[u8], i: usize) -> (r: Option<DocComment>)
    requires
        wf(*t),
        i < t.nodes@.len(),
    ensures
        crate::model::doc_view(r) == member_doc(*t, src@, i as int),
{
    match next_named_sibling_of(t, i) {
        Some(n) => {
            if is_text(&t.nodes[n].kind, "comment") && t.nodes[n].start_row == t.nodes[i].end_row {
                match text_of_node(t, src, n) {
                    Some(text) => {
                        if crate::doxycomment::is_trailing_marker(text.as_str()) {
                            return Some(crate::doxycomment::parse(text.as_str()));
                        }
                    },
                    None => {},
                }
            }
        },
        None => {},
    }
    parse_doc(preceding_doc_comment(t, src, i))
}

pub open spec fn no_items() -> SpecSourceFile {
    SpecSourceFile { functions: seq![], structs: seq![], enums: seq![], typedefs: seq![], macros: seq![] }
}

/// The items of `a` followed by those of `b`, kind by kind.
pub open spec fn items_concat(a: SpecSourceFile, b: SpecSourceFile) -> SpecSourceFile {
    SpecSourceFile {
        functions: a.functions + b.functions,
        structs: a.structs + b.structs,
        enums: a.enums + b.enums,
        typedefs: a.typedefs + b.typedefs,
        macros: a.macros + b.macros,
    }
}

pub open spec fn line_of(t: SyntaxTree, i: int) -> nat {
    (t.nodes@[i].start_row + 1) as nat
}

/// The function that node `i` declares or defines: the name comes from the declarator
/// of the function declarator it declares (see `declared_function`).
pub open spec fn function_from(t: SyntaxTree, src: Seq<u8>, path: Seq<char>, i: int) -> Option<SpecFunction> {
    match declared_function(t, i) {
        Some(fd) => match field_child(t, fd as int, "declarator"@) {
            Some(d) => match declarator_name(t, src, d as int) {
                Some(name) => Some(
                    SpecFunction {
                        name,
                        signature: signature_text(t, src, i),
                        doc: parsed_doc(preceding_doc_text(t, src, i)),
                        file: path,
                        line: line_of(t, i),
                    },
                ),
                None => None,
            },
            None => None,
        },
        None => None,
    }
}

/// The fields declared among the children of node `body`, from its `k`-th on.
pub open spec fn fields_from(t: SyntaxTree, src: Seq<u8>, body: int, k: int) -> Seq<SpecField>
    decreases kids(t, body).len() - k,
{
    if k < 0 || k >= kids(t, body).len() {
        seq![]
    } else {
        let c = kids(t, body)[k] as int;
        let rest = fields_from(t, src, body, k + 1);
        let here = if kind_of(t, c) == "field_declaration"@ {
            match field_child(t, c, "declarator"@) {
                Some(d) => match declarator_name(t, src, d as int) {
                    Some(name) => Some(
                        SpecField { name, type_text: signature_text(t, src, c), doc: member_doc(t, src, c) },
                    ),
                    None => None,
                },
                None => None,
            }
        } else {
            None
        };
        match here {
            Some(f) => seq![f] + rest,
            None => rest,
        }
    }
}

/// The fields of a struct or union specifier: those declared in its body.
pub open spec fn fields_of(t: SyntaxTree, src: Seq<u8>, i: int) -> Seq<SpecField> {
    match field_child(t, i, "body"@) {
        Some(b) => fields_from(t, src, b as int, 0),
        None => seq![],
    }
}

/// The enumerators among the children of node `body`, from its `k`-th on.
pub open spec fn variants_from(t: SyntaxTree, src: Seq<u8>, body: int, k: int) -> Seq<SpecVariant>
    decreases kids(t, body).len() - k,
{
    if k < 0 || k >= kids(t, body).len() {
        seq![]
    } else {
        let c = kids(t, body)[k] as int;
        let rest = variants_from(t, src, body, k + 1);
        let here = if kind_of(t, c) == "enumerator"@ {
            match field_child(t, c, "name"@) {
                Some(n) => match node_text(t, src, n as int) {
                    Some(name) => Some(
                        SpecVariant {
                            name,
                            value: match field_child(t, c, "value"@) {
                                Some(v) => node_text(t, src, v as int),
                                None => None,
                            },
                            doc: member_doc(t, src, c),
                        },
                    ),
                    None => None,
                },
                None => None,
            }
        } else {
            None
        };
        match here {
            Some(v) => seq![v] + rest,
            None => rest,
        }
    }
}

/// The variants of an enum specifier: the enumerators in its body.
pub open spec fn variants_of(t: SyntaxTree, src: Seq<u8>, i: int) -> Seq<SpecVariant> {
    match field_child(t, i, "body"@) {
        Some(b) => variants_from(t, src, b as int, 0),
        None => seq![],
    }
}

/// What a `typedef` gives: `typedef struct {...} Name;` gives a struct (likewise unions
/// and enums) named by the typedef, any other typedef a typedef.
pub open spec fn type_definition_items(t: SyntaxTree, src: Seq<u8>, path: Seq<char>, i: int) -> SpecSourceFile {
    match field_child(t, i, "declarator"@) {
        Some(d) => match declarator_name(t, src, d as int) {
            Some(name) => match field_child(t, i, "type"@) {
                Some(ty) => {
                    let doc = parsed_doc(preceding_doc_text(t, src, i));
                    let k = kind_of(t, ty as int);
                    if k == "struct_specifier"@ || k == "union_specifier"@ {
                        SpecSourceFile {
                            structs: seq![
                                SpecStruct {
                                    name,
                                    fields: fields_of(t, src, ty as int),
                                    doc,
                                    file: path,
                                    line: line_of(t, i),
                                },
                            ],
                            ..no_items()
                        }
                    } else if k == "enum_specifier"@ {
                        SpecSourceFile {
                            enums: seq![
                                SpecEnum {
                                    name,
                                    variants: variants_of(t, src, ty as int),
                                    doc,
                                    file: path,
                                    line: line_of(t, i),
                                },
                            ],
                            ..no_items()
                        }
                    } else {
                        SpecSourceFile {
                            typedefs: seq![
                                SpecTypedef {
                                    name,
                                    underlying: signature_text(t, src, i),
                                    doc,
                                    file: path,
                                    line: line_of(t, i),
                                },
                            ],
                            ..no_items()
                        }
                    }
                },
                None => no_items(),
            },
            None => no_items(),
        },
        None => no_items(),
    }
}

/// A struct or union declared with a tag and a body (a bare forward declaration
/// `struct Foo;` gives none).
pub open spec fn struct_from(t: SyntaxTree, src: Seq<u8>, path: Seq<char>, i: int) -> Option<SpecStruct> {
    match field_child(t, i, "name"@) {
        Some(n) => if field_child(t, i, "body"@) is Some {
            match node_text(t, src, n as int) {
                Some(name) => Some(
                    SpecStruct {
                        name,
                        fields: fields_of(t, src, i),
                        doc: parsed_doc(preceding_doc_text(t, src, i)),
                        file: path,
                        line: line_of(t, i),
                    },
                ),
                None => None,
            }
        } else {
            None
        },
        None => None,
    }
}

/// An enum declared with a tag and a body.
pub open spec fn enum_from(t: SyntaxTree, src: Seq<u8>, path: Seq<char>, i: int) -> Option<SpecEnum> {
    match field_child(t, i, "name"@) {
        Some(n) => if field_child(t, i, "body"@) is Some {
            match node_text(t, src, n as int) {
                Some(name) => Some(
                    SpecEnum {
                        name,
                        variants: variants_of(t, src, i),
                        doc: parsed_doc(preceding_doc_text(t, src, i)),
                        file: path,
                        line: line_of(t, i),
                    },
                ),
                None => None,
            }
        } else {
            None
        },
        None => None,
    }
}

/// Whether node `i` (a `preproc_def`) is the `#define GUARD` half of a `#ifndef GUARD` /
/// `#define GUARD` header include guard: no value, and its name matches the identifier tested
/// by the `preproc_ifdef` it's directly nested in.
pub open spec fn is_include_guard(t: SyntaxTree, src: Seq<u8>, i: int) -> bool {
    if field_child(t, i, "value"@) is Some {
        false
    } else {
        match t.nodes@[i].parent {
            Some(p) => kind_of(t, p as int) == "preproc_ifdef"@ && field_text(t, src, p as int, "name"@)
                is Some && field_text(t, src, p as int, "name"@) == field_text(t, src, i, "name"@),
            None => false,
        }
    }
}

/// An object-like macro (`#define FOO 1`).
pub open spec fn object_macro(t: SyntaxTree, src: Seq<u8>, path: Seq<char>, i: int) -> SpecMacro {
    SpecMacro {
        name: match field_text(t, src, i, "name"@) {
            Some(n) => n,
            None => seq![],
        },
        params: None,
        value: field_text(t, src, i, "value"@),
        doc: parsed_doc(preceding_doc_text(t, src, i)),
        file: path,
        line: line_of(t, i),
    }
}

/// The texts of the `identifier` children of node `p`, from its `k`-th child on.
pub open spec fn identifiers_from(t: SyntaxTree, src: Seq<u8>, p: int, k: int) -> Seq<Seq<char>>
    decreases kids(t, p).len() - k,
{
    if k < 0 || k >= kids(t, p).len() {
        seq![]
    } else {
        let c = kids(t, p)[k] as int;
        let rest = identifiers_from(t, src, p, k + 1);
        if kind_of(t, c) == "identifier"@ {
            match node_text(t, src, c) {
                Some(x) => seq![x] + rest,
                None => rest,
            }
        } else {
            rest
        }
    }
}

/// Whether the `k`-th child of node `p` names a parameter: an identifier with source text.
pub open spec fn is_parameter_name(t: SyntaxTree, src: Seq<u8>, p: int, k: int) -> bool {
    kind_of(t, kids(t, p)[k] as int) == "identifier"@ && node_text(t, src, kids(t, p)[k] as int) is Some
}

proof fn lemma_identifier_positions(t: SyntaxTree, src: Seq<u8>, p: int, k: int) -> (ks: Seq<int>)
    requires
        0 <= k <= kids(t, p).len(),
    ensures
        ks.len() == identifiers_from(t, src, p, k).len(),
        forall|j: int|
            0 <= j < ks.len() ==> k <= #[trigger] ks[j] < kids(t, p).len() && is_parameter_name(t, src, p, ks[j])
                && node_text(t, src, kids(t, p)[ks[j]] as int) == Some(identifiers_from(t, src, p, k)[j]),
        forall|j1: int, j2: int| 0 <= j1 < j2 < ks.len() ==> #[trigger] ks[j1] < #[trigger] ks[j2],
        forall|m: int| k <= m < kids(t, p).len() && #[trigger] is_parameter_name(t, src, p, m) ==> ks.contains(m),
    decreases kids(t, p).len() - k,
{
    if k == kids(t, p).len() {
        seq![]
    } else {
        let rest = lemma_identifier_positions(t, src, p, k + 1);
        let ids = identifiers_from(t, src, p, k);
        let tail = identifiers_from(t, src, p, k + 1);
        if is_parameter_name(t, src, p, k) {
            let x = node_text(t, src, kids(t, p)[k] as int)->0;
            assert(ids == seq![x] + tail);
            let ks = seq![k] + rest;
            assert forall|j: int| 0 <= j < ks.len() implies k <= #[trigger] ks[j] < kids(t, p).len()
                && is_parameter_name(t, src, p, ks[j]) && node_text(t, src, kids(t, p)[ks[j]] as int) == Some(
                ids[j],
            ) by {
                if j > 0 {
                    assert(ks[j] == rest[j - 1]);
                    assert(ids[j] == tail[j - 1]);
                }
            }
            assert forall|j1: int, j2: int| 0 <= j1 < j2 < ks.len() implies #[trigger] ks[j1] < #[trigger] ks[j2] by {
                if j1 > 0 {
                    assert(ks[j1] == rest[j1 - 1]);
                }
                assert(ks[j2] == rest[j2 - 1]);
            }
            assert forall|m: int| k <= m < kids(t, p).len() && #[trigger] is_parameter_name(t, src, p, m) implies ks.contains(m) by {
                if m == k {
                    assert(ks[0] == k);
                } else {
                    let j = choose|j: int| 0 <= j < rest.len() && rest[j] == m;
                    assert(ks[j + 1] == m);
                }
            }
            ks
        } else {
            assert(ids == tail);
            rest
        }
    }
}

/// A function-like macro's parameters are exactly the names in its parameter list: each
/// identifier child of the `parameters` node gives one parameter, with its text, in order,
/// and no parameter comes from anywhere else.
pub proof fn macro_params_are_the_parameter_names(t: SyntaxTree, src: Seq<u8>, path: Seq<char>, i: int)
    ensures
        match field_child(t, i, "parameters"@) {
            Some(p) => function_macro(t, src, path, i).params matches Some(ps) && exists|ks: Seq<int>|
                {
                    &&& ks.len() == ps.len()
                    &&& forall|j: int|
                        0 <= j < ks.len() ==> 0 <= #[trigger] ks[j] < kids(t, p as int).len()
                            && is_parameter_name(t, src, p as int, ks[j]) && node_text(
                            t,
                            src,
                            kids(t, p as int)[ks[j]] as int,
                        ) == Some(ps[j])
                    &&& forall|j1: int, j2: int| 0 <= j1 < j2 < ks.len() ==> #[trigger] ks[j1] < #[trigger] ks[j2]
                    &&& forall|m: int|
                        0 <= m < kids(t, p as int).len() && #[trigger] is_parameter_name(t, src, p as int, m)
                            ==> ks.contains(m)
                },
            None => function_macro(t, src, path, i).params is None,
        },
{
    match field_child(t, i, "parameters"@) {
        Some(p) => {
            let ks = lemma_identifier_positions(t, src, p as int, 0);
            assert(function_macro(t, src, path, i).params == Some(identifiers_from(t, src, p as int, 0)));
        },
        None => {},
    }
}

/// A function-like macro (`#define FOO(x) ...`).
pub open spec fn function_macro(t: SyntaxTree, src: Seq<u8>, path: Seq<char>, i: int) -> SpecMacro {
    SpecMacro {
        name: match field_text(t, src, i, "name"@) {
            Some(n) => n,
            None => seq![],
        },
        params: match field_child(t, i, "parameters"@) {
            Some(p) => Some(identifiers_from(t, src, p as int, 0)),
            None => None,
        },
        value: field_text(t, src, i, "value"@),
        doc: parsed_doc(preceding_doc_text(t, src, i)),
        file: path,
        line: line_of(t, i),
    }
}

/// The items that the subtree of node `i` declares: a declaration item gives its item
/// (and nothing under it is looked at); any other node gives those of its children, in order.
pub open spec fn items(t: SyntaxTree, src: Seq<u8>, path: Seq<char>, i: int) -> SpecSourceFile
    decreases t.nodes@.len() - i, 1int, 0int,
{
    if !(0 <= i < t.nodes@.len()) {
        no_items()
    } else {
        let k = kind_of(t, i);
        if k == "function_definition"@ {
            match function_from(t, src, path, i) {
                Some(f) => SpecSourceFile { functions: seq![f], ..no_items() },
                None => no_items(),
            }
        } else if k == "declaration"@ && function_from(t, src, path, i) is Some {
            SpecSourceFile { functions: seq![function_from(t, src, path, i)->0], ..no_items() }
        } else if k == "type_definition"@ {
            type_definition_items(t, src, path, i)
        } else if k == "struct_specifier"@ || k == "union_specifier"@ {
            match struct_from(t, src, path, i) {
                Some(x) => SpecSourceFile { structs: seq![x], ..no_items() },
                None => no_items(),
            }
        } else if k == "enum_specifier"@ {
            match enum_from(t, src, path, i) {
                Some(x) => SpecSourceFile { enums: seq![x], ..no_items() },
                None => no_items(),
            }
        } else if k == "preproc_def"@ {
            if is_include_guard(t, src, i) {
                no_items()
            } else {
                SpecSourceFile { macros: seq![object_macro(t, src, path, i)], ..no_items() }
            }
        } else if k == "preproc_function_def"@ {
            SpecSourceFile { macros: seq![function_macro(t, src, path, i)], ..no_items() }
        } else {
            items_among(t, src, path, i, 0)
        }
    }
}

/// The items that the subtrees of the children of node `i`, from its `k`-th on, declare.
pub open spec fn items_among(t: SyntaxTree, src: Seq<u8>, path: Seq<char>, i: int, k: int) -> SpecSourceFile
    decreases t.nodes@.len() - i, 0int, kids(t, i).len() - k,
{
    if !(0 <= i < t.nodes@.len()) || k < 0 || k >= kids(t, i).len() {
        no_items()
    } else {
        let c = kids(t, i)[k] as int;
        let here = if i < c < t.nodes@.len() {
            items(t, src, path, c)
        } else {
            no_items()
        };
        items_concat(here, items_among(t, src, path, i, k + 1))
    }
}

fn function_from_node(t: &SyntaxTree, src: &[u8], path: &str, i: usize) -> (r: Option<Function>)
    requires
        wf(*t),
        i < t.nodes@.len(),
    ensures
        match r {
            Some(f) => function_from(*t, src@, path@, i as int) == Some(f@),
            None => function_from(*t, src@, path@, i as int) is None,
        },
{
    let fd = declared_function_of(t, i)?;
    let d = child_by_field(t, fd, "declarator")?;
    let name = declarator_name_of(t, src, d)?;
    assert(t.nodes@[i as int].start_row < usize::MAX);
    Some(
        Function {
            name,
            signature: signature_text_of(t, src, i),
            doc: parse_doc(preceding_doc_comment(t, src, i)),
            file: path.to_owned(),
            line: t.nodes[i].start_row + 1,
        },
    )
}

fn fields_of_node(t: &SyntaxTree, src: &[u8], i: usize) -> (r: Vec<Field>)
    requires
        wf(*t),
        i < t.nodes@.len(),
    ensures
        seq_view(r@) == fields_of(*t, src@, i as int),
{
    let body = match child_by_field(t, i, "body") {
        Some(b) => b,
        None => {
            return Vec::new();
        },
    };
    let kids_v = &t.children[body];
    let mut out: Vec<Field> = Vec::new();
    let mut k: usize = 0;
    while k < kids_v.len()
        invariant
            wf(*t),
            body < t.nodes@.len(),
            kids_v@ == kids(*t, body as int),
            k <= kids_v@.len(),
            seq_view(out@) + fields_from(*t, src@, body as int, k as int) == fields_from(*t, src@, body as int, 0),
        decreases kids_v@.len() - k,
    {
        let c = kids_v[k];
        assert(c < t.nodes@.len());
        let ghost rest = fields_from(*t, src@, body as int, k + 1);
        let mut here: Option<Field> = None;
        if is_text(&t.nodes[c].kind, "field_declaration") {
            match child_by_field(t, c, "declarator") {
                Some(d) => match declarator_name_of(t, src, d) {
                    Some(name) => {
                        here = Some(Field { name, type_text: signature_text_of(t, src, c), doc: member_doc_comment(t, src, c) });
                    },
                    None => {},
                },
                None => {},
            }
        }
        match here {
            Some(f) => {
                proof {
                    lemma_seq_view_push(out@, f);
                }
                let ghost before = seq_view(out@);
                out.push(f);
                assert(before + (seq![f@] + rest) =~= before.push(f@) + rest);
            },
            None => {},
        }
        k += 1;
    }
    assert(seq_view(out@) + Seq::<SpecField>::empty() =~= seq_view(out@));
    out
}

fn variants_of_node(t: &SyntaxTree, src: &[u8], i: usize) -> (r: Vec<Variant>)
    requires
        wf(*t),
        i < t.nodes@.len(),
    ensures
        seq_view(r@) == variants_of(*t, src@, i as int),
{
    let body = match child_by_field(t, i, "body") {
        Some(b) => b,
        None => {
            return Vec::new();
        },
    };
    let kids_v = &t.children[body];
    let mut out: Vec<Variant> = Vec::new();
    let mut k: usize = 0;
    while k < kids_v.len()
        invariant
            wf(*t),
            body < t.nodes@.len(),
            kids_v@ == kids(*t, body as int),
            k <= kids_v@.len(),
            seq_view(out@) + variants_from(*t, src@, body as int, k as int) == variants_from(*t, src@, body as int, 0),
        decreases kids_v@.len() - k,
    {
        let c = kids_v[k];
        assert(c < t.nodes@.len());
        let ghost rest = variants_from(*t, src@, body as int, k + 1);
        let mut here: Option<Variant> = None;
        if is_text(&t.nodes[c].kind, "enumerator") {
            match child_by_field(t, c, "name") {
                Some(n) => match text_of_node(t, src, n) {
                    Some(name) => {
                        let value = match child_by_field(t, c, "value") {
                            Some(v) => text_of_node(t, src, v),
                            None => None,
                        };
                        here = Some(Variant { name, value, doc: member_doc_comment(t, src, c) });
                    },
                    None => {},
                },
                None => {},
            }
        }
        match here {
            Some(v) => {
                proof {
                    lemma_seq_view_push(out@, v);
                }
                let ghost before = seq_view(out@);
                out.push(v);
                assert(before + (seq![v@] + rest) =~= before.push(v@) + rest);
            },
            None => {},
        }
        k += 1;
    }
    assert(seq_view(out@) + Seq::<SpecVariant>::empty() =~= seq_view(out@));
    out
}

fn type_definition_items_of(t: &SyntaxTree, src: &[u8], path: &str, i: usize, out: &mut SourceFile)
    requires
        wf(*t),
        i < t.nodes@.len(),
    ensures
        final(out)@ == items_concat(old(out)@, type_definition_items(*t, src@, path@, i as int)),
{
    let ghost start = out@;
    assert(items_concat(start, no_items()) =~= start);
    let declarator = match child_by_field(t, i, "declarator") {
        Some(d) => d,
        None => {
            return;
        },
    };
    let name = match declarator_name_of(t, src, declarator) {
        Some(n) => n,
        None => {
            return;
        },
    };
    let doc = parse_doc(preceding_doc_comment(t, src, i));
    assert(t.nodes@[i as int].start_row < usize::MAX);
    let line = t.nodes[i].start_row + 1;
    let file = path.to_owned();
    let type_node = match child_by_field(t, i, "type") {
        Some(ty) => ty,
        None => {
            return;
        },
    };
    let k = &t.nodes[type_node].kind;
    if is_text(k, "struct_specifier") || is_text(k, "union_specifier") {
        let st = Struct { name, fields: fields_of_node(t, src, type_node), doc, file, line };
        proof {
            lemma_seq_view_push(out.structs@, st);
        }
        out.structs.push(st);
        assert(out@ =~= items_concat(start, type_definition_items(*t, src@, path@, i as int)));
    } else if is_text(k, "enum_specifier") {
        let en = Enum { name, variants: variants_of_node(t, src, type_node), doc, file, line };
        proof {
            lemma_seq_view_push(out.enums@, en);
        }
        out.enums.push(en);
        assert(out@ =~= items_concat(start, type_definition_items(*t, src@, path@, i as int)));
    } else {
        let td = Typedef { name, underlying: signature_text_of(t, src, i), doc, file, line };
        proof {
            lemma_seq_view_push(out.typedefs@, td);
        }
        out.typedefs.push(td);
        assert(out@ =~= items_concat(start, type_definition_items(*t, src@, path@, i as int)));
    }
}

fn struct_from_node(t: &SyntaxTree, src: &[u8], path: &str, i: usize) -> (r: Option<Struct>)
    requires
        wf(*t),
        i < t.nodes@.len(),
    ensures
        match r {
            Some(x) => struct_from(*t, src@, path@, i as int) == Some(x@),
            None => struct_from(*t, src@, path@, i as int) is None,
        },
{
    let name_node = child_by_field(t, i, "name")?;
    child_by_field(t, i, "body")?;
    let name = text_of_node(t, src, name_node)?;
    assert(t.nodes@[i as int].start_row < usize::MAX);
    Some(
        Struct {
            name,
            fields: fields_of_node(t, src, i),
            doc: parse_doc(preceding_doc_comment(t, src, i)),
            file: path.to_owned(),
            line: t.nodes[i].start_row + 1,
        },
    )
}

fn enum_from_node(t: &SyntaxTree, src: &[u8], path: &str, i: usize) -> (r: Option<Enum>)
    requires
        wf(*t),
        i < t.nodes@.len(),
    ensures
        match r {
            Some(x) => enum_from(*t, src@, path@, i as int) == Some(x@),
            None => enum_from(*t, src@, path@, i as int) is None,
        },
{
    let name_node = child_by_field(t, i, "name")?;
    child_by_field(t, i, "body")?;
    let name = text_of_node(t, src, name_node)?;
    assert(t.nodes@[i as int].start_row < usize::MAX);
    Some(
        Enum {
            name,
            variants: variants_of_node(t, src, i),
            doc: parse_doc(preceding_doc_comment(t, src, i)),
            file: path.to_owned(),
            line: t.nodes[i].start_row + 1,
        },
    )
}

fn include_guard(t: &SyntaxTree, src: &[u8], i: usize) -> (r: bool)
    requires
        wf(*t),
        i < t.nodes@.len(),
    ensures
        r == is_include_guard(*t, src@, i as int),
{
    if child_by_field(t, i, "value").is_some() {
        return false;
    }
    match t.nodes[i].parent {
        Some(p) => {
            assert(p < t.nodes@.len());
            if !is_text(&t.nodes[p].kind, "preproc_ifdef") {
                return false;
            }
            let guard_name = text_of(t, src, p, "name");
            let macro_name = text_of(t, src, i, "name");
            match (guard_name, macro_name) {
                (Some(g), Some(m)) => g == m,
                _ => false,
            }
        },
        None => false,
    }
}

fn object_macro_from(t: &SyntaxTree, src: &[u8], path: &str, i: usize) -> (r: Macro)
    requires
        wf(*t),
        i < t.nodes@.len(),
    ensures
        r@ == object_macro(*t, src@, path@, i as int),
{
    let name = match text_of(t, src, i, "name") {
        Some(n) => n,
        None => String::new(),
    };
    assert(t.nodes@[i as int].start_row < usize::MAX);
    Macro {
        name,
        params: None,
        value: text_of(t, src, i, "value"),
        doc: parse_doc(preceding_doc_comment(t, src, i)),
        file: path.to_owned(),
        line: t.nodes[i].start_row + 1,
    }
}

fn identifiers_of(t: &SyntaxTree, src: &[u8], p: usize) -> (r: Vec<String>)
    requires
        wf(*t),
        p < t.nodes@.len(),
    ensures
        seq_view(r@) == identifiers_from(*t, src@, p as int, 0),
{
    let kids_v = &t.children[p];
    let mut out: Vec<String> = Vec::new();
    let mut k: usize = 0;
    while k < kids_v.len()
        invariant
            wf(*t),
            p < t.nodes@.len(),
            kids_v@ == kids(*t, p as int),
            k <= kids_v@.len(),
            seq_view(out@) + identifiers_from(*t, src@, p as int, k as int) == identifiers_from(*t, src@, p as int, 0),
        decreases kids_v@.len() - k,
    {
        let c = kids_v[k];
        assert(c < t.nodes@.len());
        let ghost rest = identifiers_from(*t, src@, p as int, k + 1);
        if is_text(&t.nodes[c].kind, "identifier") {
            match text_of_node(t, src, c) {
                Some(x) => {
                    proof {
                        lemma_seq_view_push(out@, x);
                    }
                    let ghost before = seq_view(out@);
                    let ghost xv = x@;
                    out.push(x);
                    assert(before + (seq![xv] + rest) =~= before.push(xv) + rest);
                },
                None => {},
            }
        }
        k += 1;
    }
    assert(seq_view(out@) + Seq::<Seq<char>>::empty() =~= seq_view(out@));
    out
}

fn function_macro_from(t: &SyntaxTree, src: &[u8], path: &str, i: usize) -> (r: Macro)
    requires
        wf(*t),
        i < t.nodes@.len(),
    ensures
        r@ == function_macro(*t, src@, path@, i as int),
{
    let params = match child_by_field(t, i, "parameters") {
        Some(p) => Some(identifiers_of(t, src, p)),
        None => None,
    };
    let name = match text_of(t, src, i, "name") {
        Some(n) => n,
        None => String::new(),
    };
    assert(t.nodes@[i as int].start_row < usize::MAX);
    Macro {
        name,
        params,
        value: text_of(t, src, i, "value"),
        doc: parse_doc(preceding_doc_comment(t, src, i)),
        file: path.to_owned(),
        line: t.nodes[i].start_row + 1,
    }
}

proof fn lemma_items_concat_assoc(a: SpecSourceFile, b: SpecSourceFile, c: SpecSourceFile)
    ensures
        items_concat(items_concat(a, b), c) == items_concat(a, items_concat(b, c)),
{
    assert(items_concat(items_concat(a, b), c) =~= items_concat(a, items_concat(b, c)));
}

proof fn lemma_items_concat_empty(a: SpecSourceFile)
    ensures
        items_concat(a, no_items()) == a,
{
    assert(items_concat(a, no_items()) =~= a);
}

fn push_function(out: &mut SourceFile, f: Function)
    ensures
        final(out)@ == items_concat(old(out)@, SpecSourceFile { functions: seq![f@], ..no_items() }),
{
    let ghost start = out@;
    proof {
        lemma_seq_view_push(out.functions@, f);
    }
    out.functions.push(f);
    assert(out@ =~= items_concat(start, SpecSourceFile { functions: seq![f@], ..no_items() }));
}

fn push_macro(out: &mut SourceFile, m: Macro)
    ensures
        final(out)@ == items_concat(old(out)@, SpecSourceFile { macros: seq![m@], ..no_items() }),
{
    let ghost start = out@;
    proof {
        lemma_seq_view_push(out.macros@, m);
    }
    out.macros.push(m);
    assert(out@ =~= items_concat(start, SpecSourceFile { macros: seq![m@], ..no_items() }));
}

/// Recursively walk the tree looking for top-level declarations. Descends into wrapper nodes
/// (preprocessor conditionals, `extern "C"` blocks, a plain `declaration` that turns out not to
/// be a function, ...) but never into an item it has already extracted, so e.g. local variable
/// declarations inside a function body are never mistaken for top-level items.
fn collect_items(t: &SyntaxTree, src: &[u8], path: &str, i: usize, out: &mut SourceFile)
    requires
        wf(*t),
        i < t.nodes@.len(),
    ensures
        final(out)@ == items_concat(old(out)@, items(*t, src@, path@, i as int)),
    decreases t.nodes@.len() - i,
{
    let ghost start = out@;
    proof {
        lemma_items_concat_empty(start);
    }
    let k = &t.nodes[i].kind;
    if is_text(k, "function_definition") {
        match function_from_node(t, src, path, i) {
            Some(f) => push_function(out, f),
            None => {},
        }
        return;
    }
    if is_text(k, "declaration") {
        match function_from_node(t, src, path, i) {
            Some(f) => {
                push_function(out, f);
                return;
            },
            None => {},
        }
    }
    if is_text(k, "type_definition") {
        type_definition_items_of(t, src, path, i, out);
        return;
    }
    if is_text(k, "struct_specifier") || is_text(k, "union_specifier") {
        match struct_from_node(t, src, path, i) {
            Some(x) => {
                proof {
                    lemma_seq_view_push(out.structs@, x);
                }
                out.structs.push(x);
                assert(out@ =~= items_concat(start, items(*t, src@, path@, i as int)));
            },
            None => {},
        }
        return;
    }
    if is_text(k, "enum_specifier") {
        match enum_from_node(t, src, path, i) {
            Some(x) => {
                proof {
                    lemma_seq_view_push(out.enums@, x);
                }
                out.enums.push(x);
                assert(out@ =~= items_concat(start, items(*t, src@, path@, i as int)));
            },
            None => {},
        }
        return;
    }
    if is_text(k, "preproc_def") {
        if !include_guard(t, src, i) {
            push_macro(out, object_macro_from(t, src, path, i));
        }
        return;
    }
    if is_text(k, "preproc_function_def") {
        push_macro(out, function_macro_from(t, src, path, i));
        return;
    }
    assert(items(*t, src@, path@, i as int) == items_among(*t, src@, path@, i as int, 0));
    let kids_v = &t.children[i];
    let mut c_idx: usize = 0;
    while c_idx < kids_v.len()
        invariant
            wf(*t),
            i < t.nodes@.len(),
            kids_v@ == kids(*t, i as int),
            c_idx <= kids_v@.len(),
            items_concat(out@, items_among(*t, src@, path@, i as int, c_idx as int)) == items_concat(start, items_among(*t, src@, path@, i as int, 0)),
        decreases kids_v@.len() - c_idx,
    {
        let c = kids_v[c_idx];
        assert(i < c < t.nodes@.len());
        let ghost before = out@;
        collect_items(t, src, path, c, out);
        proof {
            lemma_items_concat_assoc(before, items(*t, src@, path@, c as int), items_among(*t, src@, path@, i as int, c_idx + 1));
        }
        c_idx += 1;
    }
    proof {
        lemma_items_concat_empty(out@);
    }
}

/// Why a C source yields no items.
#[derive(Debug, PartialEq, Eq)]
pub enum ParseError {
    /// Loading the tree-sitter C grammar failed.
    Grammar,
    /// Tree-sitter gave no syntax tree.
    Syntax,
    /// Tree-sitter's nodes did not form one tree.
    Shape,
    /// A declaration starts on a row past the last line number that a `usize` holds.
    TooManyLines,
}

/// The documented declarations of a C source, extracted from its syntax tree `t` (whose
/// byte ranges index `source`), each recorded as coming from the file `path`.
pub fn extract_items(t: &SyntaxTree, source: &str, path: &str) -> (r: SourceFile)
    requires
        wf(*t),
    ensures
        r@ == items(*t, encode_utf8(source@), path@, 0),
{
    let mut out = SourceFile {
        functions: Vec::new(),
        structs: Vec::new(),
        enums: Vec::new(),
        typedefs: Vec::new(),
        macros: Vec::new(),
    };
    assert(out@ =~= no_items());
    let src = source.as_bytes();
    collect_items(t, src, path, 0, &mut out);
    proof {
        assert(items_concat(no_items(), items(*t, encode_utf8(source@), path@, 0)) =~= items(*t, encode_utf8(source@), path@, 0));
    }
    out
}

/// The error that parsing reports for an error of the syntax tree.
pub open spec fn parse_error_of(e: SyntaxError) -> ParseError {
    match e {
        SyntaxError::Grammar => ParseError::Grammar,
        SyntaxError::Parse => ParseError::Syntax,
        SyntaxError::Shape => ParseError::Shape,
        SyntaxError::TooManyLines => ParseError::TooManyLines,
    }
}

/// Parse a C source/header file's text and extract its documented declarations, recorded
/// as coming from the file `path`: the items of the tree that the parser's nodes for the
/// source describe (see `syntax_tree`), or the reason there is no such tree.
pub fn parse_source(source: &str, path: &str) -> (r: Result<SourceFile, ParseError>)
    ensures
        match c_syntax_nodes(source@) {
            Err(e) => r == Err::<SourceFile, ParseError>(parse_error_of(e)),
            Ok(raw) => if !raw_shaped(raw) {
                r == Err::<SourceFile, ParseError>(ParseError::Shape)
            } else if !rows_fit(raw) {
                r == Err::<SourceFile, ParseError>(ParseError::TooManyLines)
            } else {
                r matches Ok(sf) && exists|t: SyntaxTree|
                    wf(t) && lowered(t, raw) && sf@ == #[trigger] items(t, encode_utf8(source@), path@, 0)
            },
        },
{
    match syntax_tree(source) {
        Ok(t) => {
            let sf = extract_items(&t, source, path);
            Ok(sf)
        },
        Err(SyntaxError::Grammar) => Err(ParseError::Grammar),
        Err(SyntaxError::Parse) => Err(ParseError::Syntax),
        Err(SyntaxError::Shape) => Err(ParseError::Shape),
        Err(SyntaxError::TooManyLines) => Err(ParseError::TooManyLines),
    }
}

} // verus!
