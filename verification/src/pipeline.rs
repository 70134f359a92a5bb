//! Putting a build together: the document made from every parsed source file, and
//! the pages that the navigation tree asks for.
use vstd::prelude::*;

use crate::config::{Config, NavEntry, entries_pages, entry_pages};
use crate::merge::{all_functions, is_stable_sort_of, merge_functions, merged_entries};
use crate::model::{
    Document, Enum, Macro, SourceFile, SpecEnum, SpecMacro, SpecSourceFile, SpecStruct, SpecTypedef,
    Struct, Typedef, lemma_seq_view_push, seq_view,
};

verus! {

pub open spec fn all_structs(files: Seq<SpecSourceFile>) -> Seq<SpecStruct>
    decreases files.len(),
{
    if files.len() == 0 {
        seq![]
    } else {
        all_structs(files.drop_last()) + files.last().structs
    }
}

pub open spec fn all_enums(files: Seq<SpecSourceFile>) -> Seq<SpecEnum>
    decreases files.len(),
{
    if files.len() == 0 {
        seq![]
    } else {
        all_enums(files.drop_last()) + files.last().enums
    }
}

pub open spec fn all_typedefs(files: Seq<SpecSourceFile>) -> Seq<SpecTypedef>
    decreases files.len(),
{
    if files.len() == 0 {
        seq![]
    } else {
        all_typedefs(files.drop_last()) + files.last().typedefs
    }
}

pub open spec fn all_macros(files: Seq<SpecSourceFile>) -> Seq<SpecMacro>
    decreases files.len(),
{
    if files.len() == 0 {
        seq![]
    } else {
        all_macros(files.drop_last()) + files.last().macros
    }
}

/// The document of a build: the functions merged across files (see `merge_functions`);
/// structs, enums, typedefs and macros, which each come from one file only, in file order.
pub fn assemble_document(source_files: &[SourceFile]) -> (r: Document)
    ensures
        is_stable_sort_of(seq_view(r.functions@), merged_entries(seq_view(source_files@))),
        seq_view(r.structs@) == all_structs(seq_view(source_files@)),
        seq_view(r.enums@) == all_enums(seq_view(source_files@)),
        seq_view(r.typedefs@) == all_typedefs(seq_view(source_files@)),
        seq_view(r.macros@) == all_macros(seq_view(source_files@)),
{
    let functions = merge_functions(source_files);
    let ghost fv = seq_view(source_files@);
    let mut structs: Vec<Struct> = Vec::new();
    let mut enums: Vec<Enum> = Vec::new();
    let mut typedefs: Vec<Typedef> = Vec::new();
    let mut macros: Vec<Macro> = Vec::new();
    let mut fi: usize = 0;
    while fi < source_files.len()
        invariant
            fi <= source_files@.len(),
            fv == seq_view(source_files@),
            seq_view(structs@) == all_structs(fv.take(fi as int)),
            seq_view(enums@) == all_enums(fv.take(fi as int)),
            seq_view(typedefs@) == all_typedefs(fv.take(fi as int)),
            seq_view(macros@) == all_macros(fv.take(fi as int)),
        decreases source_files@.len() - fi,
    {
        let file = &source_files[fi];
        assert(fv[fi as int] == file@);
        assert(fv.take(fi + 1).drop_last() =~= fv.take(fi as int));
        let ghost s0 = seq_view(structs@);
        let mut j: usize = 0;
        while j < file.structs.len()
            invariant
                j <= file.structs@.len(),
                seq_view(structs@) == s0 + seq_view(file.structs@).take(j as int),
            decreases file.structs@.len() - j,
        {
            let x = file.structs[j].duplicate();
            proof {
                lemma_seq_view_push(structs@, x);
            }
            structs.push(x);
            assert(s0 + seq_view(file.structs@).take(j + 1) =~= (s0 + seq_view(file.structs@).take(j as int)).push(x@));
            j += 1;
        }
        assert(seq_view(file.structs@).take(file.structs@.len() as int) =~= seq_view(file.structs@));
        let ghost e0 = seq_view(enums@);
        let mut j: usize = 0;
        while j < file.enums.len()
            invariant
                j <= file.enums@.len(),
                seq_view(enums@) == e0 + seq_view(file.enums@).take(j as int),
            decreases file.enums@.len() - j,
        {
            let x = file.enums[j].duplicate();
            proof {
                lemma_seq_view_push(enums@, x);
            }
            enums.push(x);
            assert(e0 + seq_view(file.enums@).take(j + 1) =~= (e0 + seq_view(file.enums@).take(j as int)).push(x@));
            j += 1;
        }
        assert(seq_view(file.enums@).take(file.enums@.len() as int) =~= seq_view(file.enums@));
        let ghost t0 = seq_view(typedefs@);
        let mut j: usize = 0;
        while j < file.typedefs.len()
            invariant
                j <= file.typedefs@.len(),
                seq_view(typedefs@) == t0 + seq_view(file.typedefs@).take(j as int),
            decreases file.typedefs@.len() - j,
        {
            let x = file.typedefs[j].duplicate();
            proof {
                lemma_seq_view_push(typedefs@, x);
            }
            typedefs.push(x);
            assert(t0 + seq_view(file.typedefs@).take(j + 1) =~= (t0 + seq_view(file.typedefs@).take(j as int)).push(x@));
            j += 1;
        }
        assert(seq_view(file.typedefs@).take(file.typedefs@.len() as int) =~= seq_view(file.typedefs@));
        let ghost m0 = seq_view(macros@);
        let mut j: usize = 0;
        while j < file.macros.len()
            invariant
                j <= file.macros@.len(),
                seq_view(macros@) == m0 + seq_view(file.macros@).take(j as int),
            decreases file.macros@.len() - j,
        {
            let x = file.macros[j].duplicate();
            proof {
                lemma_seq_view_push(macros@, x);
            }
            macros.push(x);
            assert(m0 + seq_view(file.macros@).take(j + 1) =~= (m0 + seq_view(file.macros@).take(j as int)).push(x@));
            j += 1;
        }
        assert(seq_view(file.macros@).take(file.macros@.len() as int) =~= seq_view(file.macros@));
        fi += 1;
    }
    assert(fv.take(source_files@.len() as int) =~= fv);
    Document { functions, structs, enums, typedefs, macros }
}

/// A page that a build writes.
#[derive(Debug)]
pub enum PagePlan {
    /// A hand-written Markdown page at `path`, relative to the content directory.
    Content { title: String, path: String },
    /// The API reference, written to the page for `path`.
    Api { title: String, path: String },
}

/// A page as a view: whether it is the API reference, its title and its path.
pub type SpecPage = (bool, Seq<char>, Seq<char>);

impl View for PagePlan {
    type V = SpecPage;

    open spec fn view(&self) -> SpecPage {
        match self {
            PagePlan::Content { title, path } => (false, title@, path@),
            PagePlan::Api { title, path } => (true, title@, path@),
        }
    }
}

/// The pages an entry asks for: a page, the API reference, or those of a section's items.
pub open spec fn entry_page_plan(e: NavEntry) -> Seq<SpecPage>
    decreases e,
{
    match e {
        NavEntry::Page { title, path } => seq![(false, title@, path@)],
        NavEntry::ApiReference { title, path } => seq![(true, title@, path@)],
        NavEntry::Section { items, .. } => entries_page_plan(items@),
    }
}

/// The pages a list of entries asks for, in order.
pub open spec fn entries_page_plan(es: Seq<NavEntry>) -> Seq<SpecPage>
    decreases es,
{
    if es.len() == 0 {
        seq![]
    } else {
        entries_page_plan(es.drop_last()) + entry_page_plan(es.last())
    }
}

/// Every `nav` entry becomes a page, in the order of the tree; sections only group theirs.
pub fn plan_pages(entries: &[NavEntry]) -> (r: Vec<PagePlan>)
    ensures
        seq_view(r@) == entries_page_plan(entries@),
    decreases entries@,
{
    let mut out: Vec<PagePlan> = Vec::new();
    let mut i: usize = 0;
    while i < entries.len()
        invariant
            i <= entries@.len(),
            seq_view(out@) == entries_page_plan(entries@.take(i as int)),
        decreases entries@.len() - i,
    {
        assert(entries@.take(i + 1).drop_last() =~= entries@.take(i as int));
        assert(entries@.take(i + 1).last() == entries@[i as int]);
        let ghost before = seq_view(out@);
        assert(entries_page_plan(entries@.take(i + 1)) == before + entry_page_plan(entries@[i as int]));
        match &entries[i] {
            NavEntry::Page { title, path } => {
                let p = PagePlan::Content { title: title.clone(), path: path.clone() };
                proof {
                    lemma_seq_view_push(out@, p);
                }
                out.push(p);
                assert(entry_page_plan(entries@[i as int]) == seq![p@]);
                assert(before.push(p@) =~= before + seq![p@]);
            },
            NavEntry::ApiReference { title, path } => {
                let p = PagePlan::Api { title: title.clone(), path: path.clone() };
                proof {
                    lemma_seq_view_push(out@, p);
                }
                out.push(p);
                assert(entry_page_plan(entries@[i as int]) == seq![p@]);
                assert(before.push(p@) =~= before + seq![p@]);
            },
            NavEntry::Section { items, .. } => {
                assert(decreases_to!(entries@ => entries@[i as int]));
                let sub = plan_pages(items.as_slice());
                let mut k: usize = 0;
                while k < sub.len()
                    invariant
                        k <= sub@.len(),
                        seq_view(out@) == before + seq_view(sub@).take(k as int),
                    decreases sub@.len() - k,
                {
                    let q = match &sub[k] {
                        PagePlan::Content { title, path } => PagePlan::Content { title: title.clone(), path: path.clone() },
                        PagePlan::Api { title, path } => PagePlan::Api { title: title.clone(), path: path.clone() },
                    };
                    assert(q@ == sub@[k as int]@);
                    proof {
                        lemma_seq_view_push(out@, q);
                    }
                    out.push(q);
                    assert(before + seq_view(sub@).take(k + 1) =~= (before + seq_view(sub@).take(k as int)).push(q@));
                    k += 1;
                }
                assert(seq_view(sub@).take(sub@.len() as int) =~= seq_view(sub@));
                assert(entry_page_plan(entries@[i as int]) == seq_view(sub@));
            },
        }
        i += 1;
    }
    assert(entries@.take(entries@.len() as int) =~= entries@);
    out
}

proof fn lemma_entry_plan_len(e: NavEntry)
    ensures
        entry_page_plan(e).len() == entry_pages(e),
    decreases e,
{
    match e {
        NavEntry::Section { items, .. } => {
            lemma_entries_plan_len(items@);
        },
        _ => {},
    }
}

proof fn lemma_entries_plan_len(es: Seq<NavEntry>)
    ensures
        entries_page_plan(es).len() == entries_pages(es),
    decreases es,
{
    if es.len() > 0 {
        lemma_entries_plan_len(es.drop_last());
        lemma_entry_plan_len(es.last());
    }
}

/// The pages a build writes are as many as `count_nav_pages` reports.
pub proof fn planned_pages_are_counted(entries: Seq<NavEntry>)
    ensures
        entries_page_plan(entries).len() == entries_pages(entries),
{
    lemma_entries_plan_len(entries);
}

/// What a build makes of the configuration and the parsed source files: the document, the
/// pages to write, and the number of function declarations read before merging.
#[derive(Debug)]
pub struct Build {
    pub document: Document,
    pub pages: Vec<PagePlan>,
    pub raw_functions: usize,
}

/// Number of function declarations in `files`, counted before merging.
fn count_functions(files: &[SourceFile]) -> (r: usize)
    requires
        all_functions(seq_view(files@)).len() <= usize::MAX,
    ensures
        r == all_functions(seq_view(files@)).len(),
{
    let ghost fv = seq_view(files@);
    let mut total: usize = 0;
    let mut i: usize = 0;
    while i < files.len()
        invariant
            i <= files@.len(),
            fv == seq_view(files@),
            all_functions(fv).len() <= usize::MAX,
            total == all_functions(fv.take(i as int)).len(),
        decreases files@.len() - i,
    {
        assert(fv.take(i + 1).drop_last() =~= fv.take(i as int));
        assert(fv[i as int] == files@[i as int]@);
        proof {
            lemma_all_functions_prefix(fv, i + 1);
        }
        total = total + files[i].functions.len();
        i += 1;
    }
    assert(fv.take(files@.len() as int) =~= fv);
    total
}

proof fn lemma_all_functions_prefix(files: Seq<SpecSourceFile>, k: int)
    requires
        0 <= k <= files.len(),
    ensures
        all_functions(files.take(k)).len() <= all_functions(files).len(),
    decreases files.len() - k,
{
    if k < files.len() {
        lemma_all_functions_prefix(files, k + 1);
        assert(files.take(k + 1).drop_last() =~= files.take(k));
    } else {
        assert(files.take(k) =~= files);
    }
}

/// The computing part of a build: the document assembled from the parsed `source_files`
/// (see `assemble_document`), the pages that `cfg.nav` asks for (see `plan_pages`), and the
/// count of function declarations read.
pub fn build(cfg: &Config, source_files: &[SourceFile]) -> (r: Build)
    requires
        all_functions(seq_view(source_files@)).len() <= usize::MAX,
    ensures
        is_stable_sort_of(seq_view(r.document.functions@), merged_entries(seq_view(source_files@))),
        seq_view(r.document.structs@) == all_structs(seq_view(source_files@)),
        seq_view(r.document.enums@) == all_enums(seq_view(source_files@)),
        seq_view(r.document.typedefs@) == all_typedefs(seq_view(source_files@)),
        seq_view(r.document.macros@) == all_macros(seq_view(source_files@)),
        seq_view(r.pages@) == entries_page_plan(cfg.nav@),
        r.pages@.len() == entries_pages(cfg.nav@),
        r.raw_functions == all_functions(seq_view(source_files@)).len(),
{
    let raw_functions = count_functions(source_files);
    let document = assemble_document(source_files);
    let pages = plan_pages(cfg.nav.as_slice());
    proof {
        lemma_entries_plan_len(cfg.nav@);
    }
    Build { document, pages, raw_functions }
}

/// The document's structs, enums, typedefs and macros are every file's, in file order: those
/// of files `a` then `b` are those of `a` followed by those of `b`, and those of one file are
/// its own.
pub proof fn document_items_follow_file_order(a: Seq<SpecSourceFile>, b: Seq<SpecSourceFile>, f: SpecSourceFile)
    ensures
        all_structs(a + b) == all_structs(a) + all_structs(b),
        all_enums(a + b) == all_enums(a) + all_enums(b),
        all_typedefs(a + b) == all_typedefs(a) + all_typedefs(b),
        all_macros(a + b) == all_macros(a) + all_macros(b),
        all_structs(seq![f]) == f.structs,
        all_enums(seq![f]) == f.enums,
        all_typedefs(seq![f]) == f.typedefs,
        all_macros(seq![f]) == f.macros,
    decreases b.len(),
{
    if b.len() == 0 {
        assert(a + b =~= a);
        assert(all_structs(a) + all_structs(b) =~= all_structs(a));
        assert(all_enums(a) + all_enums(b) =~= all_enums(a));
        assert(all_typedefs(a) + all_typedefs(b) =~= all_typedefs(a));
        assert(all_macros(a) + all_macros(b) =~= all_macros(a));
    } else {
        document_items_follow_file_order(a, b.drop_last(), f);
        assert((a + b).drop_last() =~= a + b.drop_last());
        assert((a + b).last() == b.last());
        assert(all_structs(a) + all_structs(b.drop_last()) + b.last().structs =~= all_structs(a) + (
        all_structs(b.drop_last()) + b.last().structs));
        assert(all_enums(a) + all_enums(b.drop_last()) + b.last().enums =~= all_enums(a) + (
        all_enums(b.drop_last()) + b.last().enums));
        assert(all_typedefs(a) + all_typedefs(b.drop_last()) + b.last().typedefs =~= all_typedefs(a) + (
        all_typedefs(b.drop_last()) + b.last().typedefs));
        assert(all_macros(a) + all_macros(b.drop_last()) + b.last().macros =~= all_macros(a) + (
        all_macros(b.drop_last()) + b.last().macros));
    }
    let one = seq![f];
    assert(one.drop_last() =~= Seq::<SpecSourceFile>::empty());
    assert(all_structs(one) == all_structs(one.drop_last()) + f.structs);
    assert(all_structs(one) =~= f.structs);
    assert(all_enums(one) == all_enums(one.drop_last()) + f.enums);
    assert(all_enums(one) =~= f.enums);
    assert(all_typedefs(one) == all_typedefs(one.drop_last()) + f.typedefs);
    assert(all_typedefs(one) =~= f.typedefs);
    assert(all_macros(one) == all_macros(one.drop_last()) + f.macros);
    assert(all_macros(one) =~= f.macros);
}

/// Each nav entry gives its pages in tree order, carrying its own title and path: the pages
/// of entries `a` then `b` are those of `a` followed by those of `b`; a page entry gives one
/// content page with its title and path, an API reference entry one API page with its title
/// and path, and a section the pages of its items.
pub proof fn planned_pages_follow_the_tree(a: Seq<NavEntry>, b: Seq<NavEntry>, e: NavEntry)
    ensures
        entries_page_plan(a + b) == entries_page_plan(a) + entries_page_plan(b),
        entries_page_plan(seq![e]) == match e {
            NavEntry::Page { title, path } => seq![(false, title@, path@)],
            NavEntry::ApiReference { title, path } => seq![(true, title@, path@)],
            NavEntry::Section { items, .. } => entries_page_plan(items@),
        },
    decreases b.len(),
{
    if b.len() == 0 {
        assert(a + b =~= a);
        assert(entries_page_plan(a) + entries_page_plan(b) =~= entries_page_plan(a));
    } else {
        planned_pages_follow_the_tree(a, b.drop_last(), e);
        assert((a + b).drop_last() =~= a + b.drop_last());
        assert((a + b).last() == b.last());
        assert(entries_page_plan(a) + entries_page_plan(b.drop_last()) + entry_page_plan(b.last())
            =~= entries_page_plan(a) + (entries_page_plan(b.drop_last()) + entry_page_plan(b.last())));
    }
    let one = seq![e];
    assert(one.drop_last() =~= Seq::<NavEntry>::empty());
    assert(entries_page_plan(one) == entries_page_plan(one.drop_last()) + entry_page_plan(e));
    assert(entries_page_plan(one) =~= entry_page_plan(e));
}

} // verus!
