//! What is extracted from C sources: documented functions, structs, enums,
//! typedefs and macros, each with its parsed doc comment.
//!
//! Every type has a view made of sequences of characters, which the contracts
//! of the library speak of.
use vstd::prelude::*;

verus! {

/// A parsed Doxygen-style comment.
#[derive(Debug, Clone, Default)]
pub struct DocComment {
    pub brief: Option<String>,
    pub description: Option<String>,
    pub params: Vec<ParamDoc>,
    pub returns: Option<String>,
    pub see_also: Vec<String>,
}

/// One `@param` entry of a doc comment.
#[derive(Debug, Clone)]
pub struct ParamDoc {
    pub name: String,
    pub description: String,
}

/// A function declaration or definition.
#[derive(Debug, Clone)]
pub struct Function {
    pub name: String,
    pub signature: String,
    pub doc: Option<DocComment>,
    /// Path of the source file, as text.
    pub file: String,
    pub line: usize,
}

/// A struct or union field.
#[derive(Debug, Clone)]
pub struct Field {
    pub name: String,
    /// Full field text (type + declarator, e.g. `char *name`, `int count`), no trailing `;`.
    pub type_text: String,
    pub doc: Option<DocComment>,
}

#[derive(Debug, Clone)]
pub struct Struct {
    pub name: String,
    pub fields: Vec<Field>,
    pub doc: Option<DocComment>,
    pub file: String,
    pub line: usize,
}

#[derive(Debug, Clone)]
pub struct Variant {
    pub name: String,
    pub value: Option<String>,
    pub doc: Option<DocComment>,
}

#[derive(Debug, Clone)]
pub struct Enum {
    pub name: String,
    pub variants: Vec<Variant>,
    pub doc: Option<DocComment>,
    pub file: String,
    pub line: usize,
}

#[derive(Debug, Clone)]
pub struct Typedef {
    pub name: String,
    /// Full `typedef ...;` text (minus the trailing `;`), e.g. `typedef int (*Callback)(int, int)`.
    pub underlying: String,
    pub doc: Option<DocComment>,
    pub file: String,
    pub line: usize,
}

#[derive(Debug, Clone)]
pub struct Macro {
    pub name: String,
    /// `None` for an object-like macro (`#define FOO 1`), `Some` (possibly empty) for a
    /// function-like macro (`#define FOO(x) ...`).
    pub params: Option<Vec<String>>,
    pub value: Option<String>,
    pub doc: Option<DocComment>,
    pub file: String,
    pub line: usize,
}

/// Everything extracted from one source file, in source order.
#[derive(Debug, Clone, Default)]
pub struct SourceFile {
    pub functions: Vec<Function>,
    pub structs: Vec<Struct>,
    pub enums: Vec<Enum>,
    pub typedefs: Vec<Typedef>,
    pub macros: Vec<Macro>,
}

/// Everything extracted from the source tree, ready to render.
#[derive(Debug, Clone, Default)]
pub struct Document {
    pub functions: Vec<Function>,
    pub structs: Vec<Struct>,
    pub enums: Vec<Enum>,
    pub typedefs: Vec<Typedef>,
    pub macros: Vec<Macro>,
}

pub struct SpecParamDoc {
    pub name: Seq<char>,
    pub description: Seq<char>,
}

pub struct SpecDocComment {
    pub brief: Option<Seq<char>>,
    pub description: Option<Seq<char>>,
    pub params: Seq<SpecParamDoc>,
    pub returns: Option<Seq<char>>,
    pub see_also: Seq<Seq<char>>,
}

pub struct SpecFunction {
    pub name: Seq<char>,
    pub signature: Seq<char>,
    pub doc: Option<SpecDocComment>,
    pub file: Seq<char>,
    pub line: nat,
}

pub struct SpecField {
    pub name: Seq<char>,
    pub type_text: Seq<char>,
    pub doc: Option<SpecDocComment>,
}

pub struct SpecStruct {
    pub name: Seq<char>,
    pub fields: Seq<SpecField>,
    pub doc: Option<SpecDocComment>,
    pub file: Seq<char>,
    pub line: nat,
}

pub struct SpecVariant {
    pub name: Seq<char>,
    pub value: Option<Seq<char>>,
    pub doc: Option<SpecDocComment>,
}

pub struct SpecEnum {
    pub name: Seq<char>,
    pub variants: Seq<SpecVariant>,
    pub doc: Option<SpecDocComment>,
    pub file: Seq<char>,
    pub line: nat,
}

pub struct SpecTypedef {
    pub name: Seq<char>,
    pub underlying: Seq<char>,
    pub doc: Option<SpecDocComment>,
    pub file: Seq<char>,
    pub line: nat,
}

pub struct SpecMacro {
    pub name: Seq<char>,
    pub params: Option<Seq<Seq<char>>>,
    pub value: Option<Seq<char>>,
    pub doc: Option<SpecDocComment>,
    pub file: Seq<char>,
    pub line: nat,
}

#[verifier::ext_equal]
pub struct SpecSourceFile {
    pub functions: Seq<SpecFunction>,
    pub structs: Seq<SpecStruct>,
    pub enums: Seq<SpecEnum>,
    pub typedefs: Seq<SpecTypedef>,
    pub macros: Seq<SpecMacro>,
}

/// The views of the items of `s`, in order.
pub open spec fn seq_view<T: View>(s: Seq<T>) -> Seq<T::V> {
    Seq::new(s.len(), |i: int| s[i]@)
}

/// The view of an optional list.
pub open spec fn opt_seq_view<T: View>(o: Option<Vec<T>>) -> Option<Seq<T::V>> {
    match o {
        Some(v) => Some(seq_view(v@)),
        None => None,
    }
}

pub proof fn lemma_seq_view_push<T: View>(s: Seq<T>, x: T)
    ensures
        seq_view(s.push(x)) == seq_view(s).push(x@),
{
    assert(seq_view(s.push(x)) =~= seq_view(s).push(x@));
}

impl View for ParamDoc {
    type V = SpecParamDoc;

    open spec fn view(&self) -> SpecParamDoc {
        SpecParamDoc { name: self.name@, description: self.description@ }
    }
}

impl View for DocComment {
    type V = SpecDocComment;

    open spec fn view(&self) -> SpecDocComment {
        SpecDocComment {
            brief: self.brief.deep_view(),
            description: self.description.deep_view(),
            params: seq_view(self.params@),
            returns: self.returns.deep_view(),
            see_also: seq_view(self.see_also@),
        }
    }
}

/// The view of an optional doc comment.
pub open spec fn doc_view(d: Option<DocComment>) -> Option<SpecDocComment> {
    match d {
        Some(d) => Some(d@),
        None => None,
    }
}

impl View for Function {
    type V = SpecFunction;

    open spec fn view(&self) -> SpecFunction {
        SpecFunction {
            name: self.name@,
            signature: self.signature@,
            doc: doc_view(self.doc),
            file: self.file@,
            line: self.line as nat,
        }
    }
}

impl View for Field {
    type V = SpecField;

    open spec fn view(&self) -> SpecField {
        SpecField { name: self.name@, type_text: self.type_text@, doc: doc_view(self.doc) }
    }
}

impl View for Struct {
    type V = SpecStruct;

    open spec fn view(&self) -> SpecStruct {
        SpecStruct {
            name: self.name@,
            fields: seq_view(self.fields@),
            doc: doc_view(self.doc),
            file: self.file@,
            line: self.line as nat,
        }
    }
}

impl View for Variant {
    type V = SpecVariant;

    open spec fn view(&self) -> SpecVariant {
        SpecVariant { name: self.name@, value: self.value.deep_view(), doc: doc_view(self.doc) }
    }
}

impl View for Enum {
    type V = SpecEnum;

    open spec fn view(&self) -> SpecEnum {
        SpecEnum {
            name: self.name@,
            variants: seq_view(self.variants@),
            doc: doc_view(self.doc),
            file: self.file@,
            line: self.line as nat,
        }
    }
}

impl View for Typedef {
    type V = SpecTypedef;

    open spec fn view(&self) -> SpecTypedef {
        SpecTypedef {
            name: self.name@,
            underlying: self.underlying@,
            doc: doc_view(self.doc),
            file: self.file@,
            line: self.line as nat,
        }
    }
}

impl View for Macro {
    type V = SpecMacro;

    open spec fn view(&self) -> SpecMacro {
        SpecMacro {
            name: self.name@,
            params: opt_seq_view(self.params),
            value: self.value.deep_view(),
            doc: doc_view(self.doc),
            file: self.file@,
            line: self.line as nat,
        }
    }
}

impl View for SourceFile {
    type V = SpecSourceFile;

    open spec fn view(&self) -> SpecSourceFile {
        SpecSourceFile {
            functions: seq_view(self.functions@),
            structs: seq_view(self.structs@),
            enums: seq_view(self.enums@),
            typedefs: seq_view(self.typedefs@),
            macros: seq_view(self.macros@),
        }
    }
}

impl View for Document {
    type V = SpecSourceFile;

    open spec fn view(&self) -> SpecSourceFile {
        SpecSourceFile {
            functions: seq_view(self.functions@),
            structs: seq_view(self.structs@),
            enums: seq_view(self.enums@),
            typedefs: seq_view(self.typedefs@),
            macros: seq_view(self.macros@),
        }
    }
}

/// A copy of an optional string.
pub fn copy_opt_string(s: &Option<String>) -> (r: Option<String>)
    ensures
        r.deep_view() == s.deep_view(),
{
    match s {
        Some(t) => Some(t.clone()),
        None => None,
    }
}

/// A copy of a list of strings.
pub fn copy_strings(v: &Vec<String>) -> (r: Vec<String>)
    ensures
        seq_view(r@) == seq_view(v@),
{
    let mut out: Vec<String> = Vec::new();
    let mut i: usize = 0;
    while i < v.len()
        invariant
            i <= v.len(),
            seq_view(out@) == seq_view(v@.take(i as int)),
        decreases v.len() - i,
    {
        let c = v[i].clone();
        proof {
            lemma_seq_view_push(out@, c);
            lemma_seq_view_push(v@.take(i as int), c);
            assert(v@.take(i + 1) =~= v@.take(i as int).push(c));
        }
        out.push(c);
        i += 1;
    }
    assert(v@.take(v.len() as int) =~= v@);
    out
}

impl DocComment {
    /// A copy of this doc comment.
    pub fn duplicate(&self) -> (r: DocComment)
        ensures
            r@ == self@,
    {
        let mut params: Vec<ParamDoc> = Vec::new();
        let mut i: usize = 0;
        while i < self.params.len()
            invariant
                i <= self.params.len(),
                seq_view(params@) == seq_view(self.params@.take(i as int)),
            decreases self.params.len() - i,
        {
            let p = &self.params[i];
            assert(seq_view(params@).len() == i);
            let ghost before = params@;
            let q = ParamDoc { name: p.name.clone(), description: p.description.clone() };
            params.push(q);
            assert forall|k: int| 0 <= k < i + 1 implies #[trigger] seq_view(params@)[k] == seq_view(self.params@.take(i + 1))[k] by {
                if k < i {
                    assert(params@[k] == before[k]);
                    assert(seq_view(before)[k] == seq_view(self.params@.take(i as int))[k]);
                }
            }
            assert(seq_view(params@) =~= seq_view(self.params@.take(i + 1)));
            i += 1;
        }
        assert(self.params@.take(self.params.len() as int) =~= self.params@);
        DocComment {
            brief: copy_opt_string(&self.brief),
            description: copy_opt_string(&self.description),
            params,
            returns: copy_opt_string(&self.returns),
            see_also: copy_strings(&self.see_also),
        }
    }
}

/// A copy of an optional doc comment.
pub fn copy_doc(d: &Option<DocComment>) -> (r: Option<DocComment>)
    ensures
        doc_view(r) == doc_view(*d),
{
    match d {
        Some(d) => Some(d.duplicate()),
        None => None,
    }
}

impl Function {
    /// A copy of this function entry.
    pub fn duplicate(&self) -> (r: Function)
        ensures
            r@ == self@,
    {
        Function {
            name: self.name.clone(),
            signature: self.signature.clone(),
            doc: copy_doc(&self.doc),
            file: self.file.clone(),
            line: self.line,
        }
    }
}

impl Field {
    /// A copy of this field.
    pub fn duplicate(&self) -> (r: Field)
        ensures
            r@ == self@,
    {
        Field { name: self.name.clone(), type_text: self.type_text.clone(), doc: copy_doc(&self.doc) }
    }
}

impl Variant {
    /// A copy of this variant.
    pub fn duplicate(&self) -> (r: Variant)
        ensures
            r@ == self@,
    {
        Variant { name: self.name.clone(), value: copy_opt_string(&self.value), doc: copy_doc(&self.doc) }
    }
}

impl Struct {
    /// A copy of this struct entry.
    pub fn duplicate(&self) -> (r: Struct)
        ensures
            r@ == self@,
    {
        let mut fields: Vec<Field> = Vec::new();
        let mut i: usize = 0;
        while i < self.fields.len()
            invariant
                i <= self.fields.len(),
                seq_view(fields@) == seq_view(self.fields@.take(i as int)),
            decreases self.fields.len() - i,
        {
            let f = self.fields[i].duplicate();
            proof {
                lemma_seq_view_push(fields@, f);
                lemma_seq_view_push(self.fields@.take(i as int), self.fields@[i as int]);
                assert(self.fields@.take(i + 1) =~= self.fields@.take(i as int).push(self.fields@[i as int]));
            }
            fields.push(f);
            i += 1;
        }
        assert(self.fields@.take(self.fields.len() as int) =~= self.fields@);
        Struct {
            name: self.name.clone(),
            fields,
            doc: copy_doc(&self.doc),
            file: self.file.clone(),
            line: self.line,
        }
    }
}

impl Enum {
    /// A copy of this enum entry.
    pub fn duplicate(&self) -> (r: Enum)
        ensures
            r@ == self@,
    {
        let mut variants: Vec<Variant> = Vec::new();
        let mut i: usize = 0;
        while i < self.variants.len()
            invariant
                i <= self.variants.len(),
                seq_view(variants@) == seq_view(self.variants@.take(i as int)),
            decreases self.variants.len() - i,
        {
            let v = self.variants[i].duplicate();
            proof {
                lemma_seq_view_push(variants@, v);
                lemma_seq_view_push(self.variants@.take(i as int), self.variants@[i as int]);
                assert(self.variants@.take(i + 1) =~= self.variants@.take(i as int).push(self.variants@[i as int]));
            }
            variants.push(v);
            i += 1;
        }
        assert(self.variants@.take(self.variants.len() as int) =~= self.variants@);
        Enum {
            name: self.name.clone(),
            variants,
            doc: copy_doc(&self.doc),
            file: self.file.clone(),
            line: self.line,
        }
    }
}

impl Typedef {
    /// A copy of this typedef entry.
    pub fn duplicate(&self) -> (r: Typedef)
        ensures
            r@ == self@,
    {
        Typedef {
            name: self.name.clone(),
            underlying: self.underlying.clone(),
            doc: copy_doc(&self.doc),
            file: self.file.clone(),
            line: self.line,
        }
    }
}

impl Macro {
    /// A copy of this macro entry.
    pub fn duplicate(&self) -> (r: Macro)
        ensures
            r@ == self@,
    {
        let params = match &self.params {
            Some(p) => Some(copy_strings(p)),
            None => None,
        };
        Macro {
            name: self.name.clone(),
            params,
            value: copy_opt_string(&self.value),
            doc: copy_doc(&self.doc),
            file: self.file.clone(),
            line: self.line,
        }
    }
}

} // verus!
