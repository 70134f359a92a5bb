//! Merging the functions of several source files into one entry per public function.
use vstd::prelude::*;

use crate::model::{
    Function, SourceFile, SpecFunction, SpecSourceFile, copy_doc, lemma_seq_view_push, seq_view,
};
use crate::order::{
    chars_less, chars_lt, lemma_chars_lt_irreflexive, lemma_chars_lt_total,
    lemma_chars_lt_transitive, lemma_seqs_lt_irreflexive, lemma_seqs_lt_total,
    lemma_seqs_lt_transitive, seqs_less, seqs_lt,
};
use crate::paths::{components, is_header, path_components, spec_is_header};
use crate::text::{chars_of, eq_chars, starts_with, trim_start, trim_start_index, views};

verus! {

pub open spec fn static_prefix() -> Seq<char> {
    seq!['s', 't', 'a', 't', 'i', 'c', ' ']
}

/// Whether a signature declares a function with internal linkage.
pub open spec fn spec_is_static(signature: Seq<char>) -> bool {
    starts_with(trim_start(signature), static_prefix())
}

fn is_static(signature: &str) -> (r: bool)
    ensures
        r == spec_is_static(signature@),
{
    let v = chars_of(signature);
    let a = trim_start_index(&v, 0, v.len());
    assert(v@.subrange(0, v@.len() as int) =~= v@);
    crate::text::starts_with_at(&v, a, v.len(), &['s', 't', 'a', 't', 'i', 'c', ' '])
}

/// What a function entry is ordered by: its name, then the components of its file.
pub type FnKey = (Seq<char>, Seq<Seq<char>>);

pub open spec fn fn_key(f: SpecFunction) -> FnKey {
    (f.name, path_components(f.file))
}

/// The order of keys: by name, then by file path.
pub open spec fn key_lt(a: FnKey, b: FnKey) -> bool {
    chars_lt(a.0, b.0) || (a.0 == b.0 && seqs_lt(a.1, b.1))
}

pub proof fn lemma_key_lt_irreflexive(a: FnKey)
    ensures
        !key_lt(a, a),
{
    lemma_chars_lt_irreflexive(a.0);
    lemma_seqs_lt_irreflexive(a.1);
}

pub proof fn lemma_key_lt_transitive(a: FnKey, b: FnKey, c: FnKey)
    requires
        key_lt(a, b),
        key_lt(b, c),
    ensures
        key_lt(a, c),
{
    if chars_lt(a.0, b.0) && chars_lt(b.0, c.0) {
        lemma_chars_lt_transitive(a.0, b.0, c.0);
    } else if a.0 == b.0 && b.0 == c.0 {
        lemma_seqs_lt_transitive(a.1, b.1, c.1);
    }
}

pub proof fn lemma_key_lt_total(a: FnKey, b: FnKey)
    ensures
        a == b || key_lt(a, b) || key_lt(b, a),
{
    lemma_chars_lt_total(a.0, b.0);
    lemma_seqs_lt_total(a.1, b.1);
}

/// Whether `s` is ordered by key.
pub open spec fn sorted_by_key(s: Seq<SpecFunction>) -> bool {
    forall|i: int, j: int| 0 <= i < j < s.len() ==> !key_lt(fn_key(s[j]), fn_key(s[i]))
}

/// The items of `s` whose key is `k`, in order.
pub open spec fn with_key(s: Seq<SpecFunction>, k: FnKey) -> Seq<SpecFunction>
    decreases s.len(),
{
    if s.len() == 0 {
        seq![]
    } else {
        let r = with_key(s.drop_last(), k);
        if fn_key(s.last()) == k {
            r.push(s.last())
        } else {
            r
        }
    }
}

/// `r` is `s` sorted by key, where items of equal key keep their order in `s`.
pub open spec fn is_stable_sort_of(r: Seq<SpecFunction>, s: Seq<SpecFunction>) -> bool {
    &&& sorted_by_key(r)
    &&& forall|k: FnKey| #[trigger] with_key(r, k) == with_key(s, k)
}

pub proof fn lemma_with_key_add(a: Seq<SpecFunction>, b: Seq<SpecFunction>, k: FnKey)
    ensures
        with_key(a + b, k) == with_key(a, k) + with_key(b, k),
    decreases b.len(),
{
    if b.len() == 0 {
        assert(a + b =~= a);
        assert(with_key(a, k) + with_key(b, k) =~= with_key(a, k));
    } else {
        lemma_with_key_add(a, b.drop_last(), k);
        assert((a + b).drop_last() =~= a + b.drop_last());
        assert((a + b).last() == b.last());
        if fn_key(b.last()) == k {
            assert(with_key(a, k) + with_key(b.drop_last(), k).push(b.last()) =~= (with_key(a, k)
                + with_key(b.drop_last(), k)).push(b.last()));
        }
    }
}

pub proof fn lemma_with_key_absent(s: Seq<SpecFunction>, k: FnKey)
    requires
        forall|i: int| 0 <= i < s.len() ==> fn_key(#[trigger] s[i]) != k,
    ensures
        with_key(s, k) == Seq::<SpecFunction>::empty(),
    decreases s.len(),
{
    if s.len() > 0 {
        assert(fn_key(s[s.len() - 1]) != k);
        lemma_with_key_absent(s.drop_last(), k);
    }
}

/// Whether `r` holds `s` with `x` inserted where key order puts it, after every item
/// whose key is not greater than the key of `x`.
proof fn lemma_insert_sorted(s: Seq<SpecFunction>, j: int, x: SpecFunction)
    requires
        sorted_by_key(s),
        0 <= j <= s.len(),
        forall|i: int| 0 <= i < j ==> !key_lt(fn_key(x), fn_key(#[trigger] s[i])),
        j < s.len() ==> key_lt(fn_key(x), fn_key(s[j])),
    ensures
        sorted_by_key(s.insert(j, x)),
        forall|k: FnKey| #[trigger] with_key(s.insert(j, x), k) == with_key(s.push(x), k),
{
    let r = s.insert(j, x);
    assert forall|a: int, b: int| 0 <= a < b < r.len() implies !key_lt(
        fn_key(r[b]),
        fn_key(r[a]),
    ) by {
        if b < j {
            assert(r[a] == s[a] && r[b] == s[b]);
        } else if b == j {
            assert(r[a] == s[a] && r[b] == x);
        } else if a == j {
            assert(r[a] == x && r[b] == s[b - 1]);
            if b - 1 > j {
                assert(!key_lt(fn_key(s[b - 1]), fn_key(s[j])));
                lemma_key_lt_total(fn_key(s[b - 1]), fn_key(s[j]));
                if key_lt(fn_key(s[j]), fn_key(s[b - 1])) {
                    lemma_key_lt_transitive(fn_key(x), fn_key(s[j]), fn_key(s[b - 1]));
                }
            }
            if key_lt(fn_key(s[b - 1]), fn_key(x)) {
                lemma_key_lt_transitive(fn_key(x), fn_key(s[b - 1]), fn_key(x));
                lemma_key_lt_irreflexive(fn_key(x));
            }
        } else if a < j {
            assert(r[a] == s[a] && r[b] == s[b - 1]);
        } else {
            assert(r[a] == s[a - 1] && r[b] == s[b - 1]);
        }
    }
    assert(r =~= s.take(j) + seq![x] + s.skip(j));
    assert(s =~= s.take(j) + s.skip(j));
    assert forall|k: FnKey| #[trigger] with_key(r, k) == with_key(s.push(x), k) by {
        lemma_with_key_add(s.take(j) + seq![x], s.skip(j), k);
        lemma_with_key_add(s.take(j), seq![x], k);
        lemma_with_key_add(s.take(j), s.skip(j), k);
        assert(seq![x].drop_last() =~= Seq::<SpecFunction>::empty());
        assert(seq![x].last() == x);
        assert(with_key(Seq::<SpecFunction>::empty(), k) == Seq::<SpecFunction>::empty());
        assert(with_key(seq![x], k) == with_key(seq![x].drop_last(), k).push(x) || fn_key(x) != k);
        assert(s.push(x).drop_last() =~= s);
        assert(s.push(x).last() == x);
        if fn_key(x) == k {
            assert forall|i: int| 0 <= i < s.skip(j).len() implies fn_key(
                #[trigger] s.skip(j)[i],
            ) != k by {
                let y = s.skip(j)[i];
                assert(y == s[j + i]);
                if i > 0 {
                    assert(!key_lt(fn_key(s[j + i]), fn_key(s[j])));
                    lemma_key_lt_total(fn_key(s[j + i]), fn_key(s[j]));
                    if key_lt(fn_key(s[j]), fn_key(s[j + i])) {
                        lemma_key_lt_transitive(fn_key(x), fn_key(s[j]), fn_key(s[j + i]));
                    }
                }
                lemma_key_lt_irreflexive(fn_key(x));
            }
            lemma_with_key_absent(s.skip(j), k);
            assert(with_key(s.take(j), k) + Seq::<SpecFunction>::empty() =~= with_key(s.take(j), k));
            assert(with_key(s.take(j), k) + seq![x] + Seq::<SpecFunction>::empty() =~= with_key(
                s.take(j),
                k,
            ).push(x));
        } else {
            assert(with_key(s.take(j), k) + Seq::<SpecFunction>::empty() =~= with_key(s.take(j), k));
        }
    }
}

pub open spec fn key_view(k: (Vec<char>, Vec<Vec<char>>)) -> FnKey {
    (k.0@, views(k.1@))
}

fn key_of(f: &Function) -> (r: (Vec<char>, Vec<Vec<char>>))
    ensures
        key_view(r) == fn_key(f@),
{
    let name = chars_of(f.name.as_str());
    let file = chars_of(f.file.as_str());
    (name, components(&file))
}

fn key_less(a: &(Vec<char>, Vec<Vec<char>>), b: &(Vec<char>, Vec<Vec<char>>)) -> (r: bool)
    ensures
        r == key_lt(key_view(*a), key_view(*b)),
{
    chars_less(a.0.as_slice(), b.0.as_slice()) || (eq_chars(a.0.as_slice(), b.0.as_slice())
        && seqs_less(&a.1, &b.1))
}

/// `items` sorted by name, then by file path, keeping the order of items with the
/// same name and file.
fn stable_sort(items: &Vec<Function>) -> (r: Vec<Function>)
    ensures
        is_stable_sort_of(seq_view(r@), seq_view(items@)),
{
    let mut res: Vec<Function> = Vec::new();
    let mut keys: Vec<(Vec<char>, Vec<Vec<char>>)> = Vec::new();
    let mut i: usize = 0;
    while i < items.len()
        invariant
            i <= items.len(),
            keys@.len() == res@.len(),
            forall|t: int| 0 <= t < res@.len() ==> key_view(#[trigger] keys@[t]) == fn_key(res@[t]@),
            is_stable_sort_of(seq_view(res@), seq_view(items@.take(i as int))),
        decreases items.len() - i,
    {
        let x = items[i].duplicate();
        let xk = key_of(&x);
        let ghost s = seq_view(res@);
        let mut j: usize = 0;
        while j < res.len() && !key_less(&xk, &keys[j])
            invariant
                j <= res@.len(),
                keys@.len() == res@.len(),
                s == seq_view(res@),
                forall|t: int| 0 <= t < res@.len() ==> key_view(#[trigger] keys@[t]) == fn_key(res@[t]@),
                forall|t: int| 0 <= t < j ==> !key_lt(key_view(xk), fn_key(#[trigger] s[t])),
            decreases res@.len() - j,
        {
            assert(s[j as int] == res@[j as int]@);
            j += 1;
        }
        proof {
            if j < res@.len() {
                assert(s[j as int] == res@[j as int]@);
            }
            lemma_insert_sorted(s, j as int, x@);
            lemma_seq_view_push(items@.take(i as int), x);
            assert(items@.take(i + 1) =~= items@.take(i as int).push(items@[i as int]));
            lemma_seq_view_push(items@.take(i as int), items@[i as int]);
            let ghost pre = seq_view(items@.take(i as int));
            assert(seq_view(items@.take(i + 1)) == pre.push(x@));
            assert forall|k: FnKey| #[trigger] with_key(s.push(x@), k) == with_key(
                seq_view(items@.take(i + 1)),
                k,
            ) by {
                assert(s.push(x@).drop_last() =~= s);
                assert(s.push(x@).last() == x@);
                assert(pre.push(x@).drop_last() =~= pre);
                assert(pre.push(x@).last() == x@);
                assert(with_key(s, k) == with_key(pre, k));
            }
        }
        let ghost keys_before = keys@;
        let ghost res_before = res@;
        res.insert(j, x);
        keys.insert(j, xk);
        assert(seq_view(res@) =~= s.insert(j as int, x@));
        assert forall|t: int| 0 <= t < res@.len() implies key_view(#[trigger] keys@[t]) == fn_key(
            res@[t]@,
        ) by {
            if t > j {
                assert(keys@[t] == keys_before[t - 1]);
                assert(res@[t] == res_before[t - 1]);
            } else if t < j {
                assert(keys@[t] == keys_before[t]);
                assert(res@[t] == res_before[t]);
            }
        }
        i += 1;
    }
    assert(items@.take(items.len() as int) =~= items@);
    res
}

/// Fold `incoming` into `existing`: a header's signature is preferred as the canonical one
/// when present, and whichever side has a doc comment wins (the header's if both do).
pub open spec fn spec_merge_into(existing: SpecFunction, incoming: SpecFunction) -> SpecFunction {
    let eh = spec_is_header(existing.file);
    let ih = spec_is_header(incoming.file);
    let base = if ih && !eh {
        SpecFunction {
            signature: incoming.signature,
            file: incoming.file,
            line: incoming.line,
            ..existing
        }
    } else {
        existing
    };
    let doc = match (existing.doc, incoming.doc) {
        (None, Some(_)) => incoming.doc,
        (Some(_), Some(_)) => if ih && !eh {
            incoming.doc
        } else {
            existing.doc
        },
        _ => existing.doc,
    };
    SpecFunction { doc, ..base }
}

fn merge_into(existing: &Function, incoming: &Function) -> (r: Function)
    ensures
        r@ == spec_merge_into(existing@, incoming@),
{
    let existing_is_header = is_header(existing.file.as_str());
    let incoming_is_header = is_header(incoming.file.as_str());
    let take_incoming = incoming_is_header && !existing_is_header;
    let (signature, file, line) = if take_incoming {
        (incoming.signature.clone(), incoming.file.clone(), incoming.line)
    } else {
        (existing.signature.clone(), existing.file.clone(), existing.line)
    };
    let doc = match (&existing.doc, &incoming.doc) {
        (None, Some(_)) => copy_doc(&incoming.doc),
        (Some(_), Some(_)) => if take_incoming {
            copy_doc(&incoming.doc)
        } else {
            copy_doc(&existing.doc)
        },
        _ => copy_doc(&existing.doc),
    };
    Function { name: existing.name.clone(), signature, doc, file, line }
}

/// Index of the first item of `s` named `name`.
pub open spec fn index_of_name(s: Seq<SpecFunction>, name: Seq<char>) -> Option<nat>
    decreases s.len(),
{
    if s.len() == 0 {
        None
    } else if s[0].name == name {
        Some(0)
    } else {
        match index_of_name(s.drop_first(), name) {
            Some(k) => Some(k + 1),
            None => None,
        }
    }
}

pub proof fn lemma_index_of_name(s: Seq<SpecFunction>, name: Seq<char>)
    ensures
        match index_of_name(s, name) {
            Some(k) => k < s.len() && s[k as int].name == name && forall|j: int|
                0 <= j < k ==> #[trigger] s[j].name != name,
            None => forall|j: int| 0 <= j < s.len() ==> #[trigger] s[j].name != name,
        },
    decreases s.len(),
{
    if s.len() > 0 && s[0].name != name {
        lemma_index_of_name(s.drop_first(), name);
        assert forall|j: int| 0 < j < s.len() implies s[j] == s.drop_first()[j - 1] by {}
    }
}

/// Public functions found so far (one per name) and file-local ones.
pub type MergeState = (Seq<SpecFunction>, Seq<SpecFunction>);

/// How one declaration changes the merge state: a `static` one is kept apart; a public
/// one is folded into the entry of the same name, or starts a new entry.
pub open spec fn merge_step(st: MergeState, f: SpecFunction) -> MergeState {
    let (public, local) = st;
    if spec_is_static(f.signature) {
        (public, local.push(f))
    } else {
        match index_of_name(public, f.name) {
            Some(k) => (public.update(k as int, spec_merge_into(public[k as int], f)), local),
            None => (public.push(f), local),
        }
    }
}

pub open spec fn merge_state(fs: Seq<SpecFunction>) -> MergeState
    decreases fs.len(),
{
    if fs.len() == 0 {
        (seq![], seq![])
    } else {
        merge_step(merge_state(fs.drop_last()), fs.last())
    }
}

/// The functions of all `files`, in order.
pub open spec fn all_functions(files: Seq<SpecSourceFile>) -> Seq<SpecFunction>
    decreases files.len(),
{
    if files.len() == 0 {
        seq![]
    } else {
        all_functions(files.drop_last()) + files.last().functions
    }
}

/// The entries that merging produces, before they are ordered.
pub open spec fn merged_entries(files: Seq<SpecSourceFile>) -> Seq<SpecFunction> {
    let (public, local) = merge_state(all_functions(files));
    public + local
}

/// Merge per-file function declarations into one entry per public (non-`static`) function name,
/// combining a header's prototype/doc with a `.c` file's definition/doc when both exist.
///
/// Doxygen convention: a function declared in a header and defined in a `.c` file is one logical
/// entity, not two — this reproduces that. `static` functions have internal linkage, so the same
/// name reused in two unrelated `.c` files must NOT be merged into a single entry.
pub fn merge_functions(files: &[SourceFile]) -> (r: Vec<Function>)
    ensures
        is_stable_sort_of(seq_view(r@), merged_entries(seq_view(files@))),
{
    let ghost fv = seq_view(files@);
    let mut public: Vec<Function> = Vec::new();
    let mut local: Vec<Function> = Vec::new();
    let mut fi: usize = 0;
    while fi < files.len()
        invariant
            fi <= files@.len(),
            fv == seq_view(files@),
            (seq_view(public@), seq_view(local@)) == merge_state(all_functions(fv.take(fi as int))),
        decreases files@.len() - fi,
    {
        let funcs = &files[fi].functions;
        let ghost before = all_functions(fv.take(fi as int));
        let ghost fs = seq_view(funcs@);
        assert(fs == fv[fi as int].functions);
        assert(before + fs.take(0) =~= before);
        let mut j: usize = 0;
        while j < funcs.len()
            invariant
                j <= funcs@.len(),
                fs == seq_view(funcs@),
                (seq_view(public@), seq_view(local@)) == merge_state(before + fs.take(j as int)),
            decreases funcs@.len() - j,
        {
            let f = &funcs[j];
            assert(before + fs.take(j + 1) =~= (before + fs.take(j as int)).push(f@));
            assert((before + fs.take(j as int)).push(f@).drop_last() =~= before + fs.take(j as int));
            if is_static(f.signature.as_str()) {
                let c = f.duplicate();
                proof {
                    lemma_seq_view_push(local@, c);
                }
                local.push(c);
            } else {
                let ghost pv = seq_view(public@);
                let mut k: usize = 0;
                while k < public.len() && public[k].name != f.name
                    invariant
                        k <= public@.len(),
                        pv == seq_view(public@),
                        forall|t: int| 0 <= t < k ==> #[trigger] pv[t].name != f@.name,
                    decreases public@.len() - k,
                {
                    k += 1;
                }
                proof {
                    lemma_index_of_name(pv, f@.name);
                    match index_of_name(pv, f@.name) {
                        Some(q) => {
                            if (q as int) < (k as int) {
                                assert(pv[q as int].name != f@.name);
                            }
                            if k < public@.len() && (k as int) < (q as int) {
                                assert(pv[k as int].name == f@.name);
                            }
                        },
                        None => {
                            if k < public@.len() {
                                assert(pv[k as int].name == f@.name);
                            }
                        },
                    }
                }
                if k < public.len() {
                    let m = merge_into(&public[k], f);
                    public.set(k, m);
                    assert(seq_view(public@) =~= pv.update(k as int, m@));
                } else {
                    let c = f.duplicate();
                    proof {
                        lemma_seq_view_push(public@, c);
                    }
                    public.push(c);
                }
            }
            j += 1;
        }
        assert(fs.take(funcs@.len() as int) =~= fs);
        assert(fv.take(fi + 1).drop_last() =~= fv.take(fi as int));
        fi += 1;
    }
    assert(fv.take(files@.len() as int) =~= fv);
    let mut entries = public;
    let ghost pv = seq_view(entries@);
    let mut t: usize = 0;
    while t < local.len()
        invariant
            t <= local@.len(),
            seq_view(entries@) == pv + seq_view(local@).take(t as int),
        decreases local@.len() - t,
    {
        let c = local[t].duplicate();
        proof {
            lemma_seq_view_push(entries@, c);
        }
        entries.push(c);
        assert(pv + seq_view(local@).take(t + 1) =~= (pv + seq_view(local@).take(t as int)).push(
            c@,
        ));
        t += 1;
    }
    assert(seq_view(local@).take(local@.len() as int) =~= seq_view(local@));
    stable_sort(&entries)
}

/// The `static` items of `s`, in order.
pub open spec fn statics_of(s: Seq<SpecFunction>) -> Seq<SpecFunction>
    decreases s.len(),
{
    if s.len() == 0 {
        seq![]
    } else if spec_is_static(s.last().signature) {
        statics_of(s.drop_last()).push(s.last())
    } else {
        statics_of(s.drop_last())
    }
}

/// Whether `s` holds public entries only, with no two sharing a name.
pub open spec fn one_public_entry_per_name(s: Seq<SpecFunction>) -> bool {
    &&& forall|i: int| 0 <= i < s.len() ==> !spec_is_static(#[trigger] s[i].signature)
    &&& forall|i: int, j: int| 0 <= i < j < s.len() ==> #[trigger] s[i].name != #[trigger] s[j].name
}

proof fn lemma_merge_state(fs: Seq<SpecFunction>)
    ensures
        one_public_entry_per_name(merge_state(fs).0),
        merge_state(fs).1 == statics_of(fs),
        forall|i: int|
            0 <= i < fs.len() && !spec_is_static(#[trigger] fs[i].signature) ==> exists|j: int|
                0 <= j < merge_state(fs).0.len() && #[trigger] merge_state(fs).0[j].name
                    == fs[i].name,
    decreases fs.len(),
{
    if fs.len() > 0 {
        let pre = fs.drop_last();
        lemma_merge_state(pre);
        let (p, l) = merge_state(pre);
        let f = fs.last();
        let (p2, l2) = merge_state(fs);
        assert((p2, l2) == merge_step((p, l), f));
        if !spec_is_static(f.signature) {
            lemma_index_of_name(p, f.name);
            match index_of_name(p, f.name) {
                Some(k) => {
                    let m = spec_merge_into(p[k as int], f);
                    assert(m.name == p[k as int].name);
                    assert(!spec_is_static(m.signature));
                    assert(p2 == p.update(k as int, m));
                    assert forall|i: int, j: int| 0 <= i < j < p2.len() implies #[trigger] p2[i].name
                        != #[trigger] p2[j].name by {
                        assert(p2[i].name == p[i].name);
                        assert(p2[j].name == p[j].name);
                    }
                    assert forall|i: int| 0 <= i < p2.len() implies !spec_is_static(
                        #[trigger] p2[i].signature,
                    ) by {
                        if i != k {
                            assert(p2[i] == p[i]);
                        }
                    }
                    assert forall|i: int|
                        0 <= i < fs.len() && !spec_is_static(
                            #[trigger] fs[i].signature,
                        ) implies exists|j: int|
                        0 <= j < p2.len() && #[trigger] p2[j].name == fs[i].name by {
                        if i < fs.len() - 1 {
                            assert(fs[i] == pre[i]);
                            let j = choose|j: int| 0 <= j < p.len() && #[trigger] p[j].name == pre[i].name;
                            assert(p2[j].name == p[j].name);
                        } else {
                            assert(p2[k as int].name == fs[i].name);
                        }
                    }
                },
                None => {
                    assert(p2 == p.push(f));
                    assert forall|i: int|
                        0 <= i < fs.len() && !spec_is_static(
                            #[trigger] fs[i].signature,
                        ) implies exists|j: int|
                        0 <= j < p2.len() && #[trigger] p2[j].name == fs[i].name by {
                        if i < fs.len() - 1 {
                            assert(fs[i] == pre[i]);
                            let j = choose|j: int| 0 <= j < p.len() && #[trigger] p[j].name == pre[i].name;
                            assert(p2[j] == p[j]);
                        } else {
                            assert(p2[p.len() as int] == f);
                        }
                    }
                },
            }
        } else {
            assert forall|i: int|
                0 <= i < fs.len() && !spec_is_static(#[trigger] fs[i].signature) implies exists|
                j: int,
            | 0 <= j < p2.len() && #[trigger] p2[j].name == fs[i].name by {
                assert(fs[i] == pre[i]);
            }
        }
    }
}

proof fn lemma_statics_all_static(s: Seq<SpecFunction>)
    ensures
        forall|i: int| 0 <= i < statics_of(s).len() ==> spec_is_static(#[trigger] statics_of(s)[i].signature),
    decreases s.len(),
{
    if s.len() > 0 {
        lemma_statics_all_static(s.drop_last());
    }
}

/// Merging leaves one entry per public (non-`static`) function name: no two public
/// entries share a name, and every public function of the input has an entry of its name.
pub proof fn merge_one_entry_per_public_name(files: Seq<SpecSourceFile>)
    ensures
        ({
            let e = merged_entries(files);
            &&& forall|i: int, j: int|
                0 <= i < j < e.len() && !spec_is_static(#[trigger] e[i].signature)
                    && !spec_is_static(#[trigger] e[j].signature) ==> e[i].name != e[j].name
            &&& forall|i: int|
                0 <= i < all_functions(files).len() && !spec_is_static(
                    #[trigger] all_functions(files)[i].signature,
                ) ==> exists|j: int|
                0 <= j < e.len() && !spec_is_static(e[j].signature) && #[trigger] e[j].name
                    == all_functions(files)[i].name
        }),
{
    let fs = all_functions(files);
    lemma_merge_state(fs);
    lemma_statics_all_static(fs);
    let (p, l) = merge_state(fs);
    let e = p + l;
    assert forall|i: int, j: int|
        0 <= i < j < e.len() && !spec_is_static(#[trigger] e[i].signature) && !spec_is_static(
            #[trigger] e[j].signature,
        ) implies e[i].name != e[j].name by {
        if j >= p.len() {
            assert(e[j] == l[j - p.len()]);
        } else {
            assert(e[i] == p[i] && e[j] == p[j]);
        }
    }
    assert forall|i: int|
        0 <= i < fs.len() && !spec_is_static(#[trigger] fs[i].signature) implies exists|j: int|
        0 <= j < e.len() && !spec_is_static(e[j].signature) && #[trigger] e[j].name
            == fs[i].name by {
        let j = choose|j: int| 0 <= j < p.len() && #[trigger] p[j].name == fs[i].name;
        assert(e[j] == p[j]);
    }
}

/// Whether some public entry of `p` is named `name` and has a doc comment.
pub open spec fn documented_entry(p: Seq<SpecFunction>, name: Seq<char>) -> bool {
    exists|j: int| 0 <= j < p.len() && #[trigger] p[j].name == name && p[j].doc is Some
}

/// Whether some entry of `p` is named `name` and comes from a header.
pub open spec fn header_entry(p: Seq<SpecFunction>, name: Seq<char>) -> bool {
    exists|j: int| 0 <= j < p.len() && #[trigger] p[j].name == name && spec_is_header(p[j].file)
}

proof fn lemma_merge_state_keeps(fs: Seq<SpecFunction>)
    ensures
        forall|i: int|
            0 <= i < fs.len() && !spec_is_static(#[trigger] fs[i].signature) && fs[i].doc is Some
                ==> documented_entry(merge_state(fs).0, fs[i].name),
        forall|i: int|
            0 <= i < fs.len() && !spec_is_static(#[trigger] fs[i].signature) && spec_is_header(fs[i].file)
                ==> header_entry(merge_state(fs).0, fs[i].name),
    decreases fs.len(),
{
    if fs.len() > 0 {
        let pre = fs.drop_last();
        lemma_merge_state_keeps(pre);
        let (p, l) = merge_state(pre);
        let f = fs.last();
        let p2 = merge_state(fs).0;
        assert(merge_state(fs) == merge_step((p, l), f));
        if spec_is_static(f.signature) {
            assert(p2 == p);
            assert forall|i: int|
                0 <= i < fs.len() && !spec_is_static(#[trigger] fs[i].signature) && fs[i].doc is Some
                    implies documented_entry(p2, fs[i].name) by {
                assert(fs[i] == pre[i]);
            }
            assert forall|i: int|
                0 <= i < fs.len() && !spec_is_static(#[trigger] fs[i].signature) && spec_is_header(fs[i].file)
                    implies header_entry(p2, fs[i].name) by {
                assert(fs[i] == pre[i]);
            }
        } else {
            lemma_index_of_name(p, f.name);
            match index_of_name(p, f.name) {
                Some(k) => {
                    let m = spec_merge_into(p[k as int], f);
                    assert(p2 == p.update(k as int, m));
                    assert(m.name == p[k as int].name);
                    assert(p[k as int].doc is Some ==> m.doc is Some);
                    assert(f.doc is Some ==> m.doc is Some);
                    assert(spec_is_header(p[k as int].file) ==> spec_is_header(m.file));
                    assert(spec_is_header(f.file) ==> spec_is_header(m.file));
                    assert forall|i: int|
                        0 <= i < fs.len() && !spec_is_static(#[trigger] fs[i].signature) && fs[i].doc is Some
                            implies documented_entry(p2, fs[i].name) by {
                        if i < fs.len() - 1 {
                            assert(fs[i] == pre[i]);
                            let j = choose|j: int| 0 <= j < p.len() && #[trigger] p[j].name == pre[i].name && p[j].doc is Some;
                            assert(p2[j].name == fs[i].name && p2[j].doc is Some);
                        } else {
                            assert(p2[k as int].name == fs[i].name && p2[k as int].doc is Some);
                        }
                    }
                    assert forall|i: int|
                        0 <= i < fs.len() && !spec_is_static(#[trigger] fs[i].signature) && spec_is_header(fs[i].file)
                            implies header_entry(p2, fs[i].name) by {
                        if i < fs.len() - 1 {
                            assert(fs[i] == pre[i]);
                            let j = choose|j: int| 0 <= j < p.len() && #[trigger] p[j].name == pre[i].name && spec_is_header(p[j].file);
                            assert(p2[j].name == fs[i].name && spec_is_header(p2[j].file));
                        } else {
                            assert(p2[k as int].name == fs[i].name && spec_is_header(p2[k as int].file));
                        }
                    }
                },
                None => {
                    assert(p2 == p.push(f));
                    assert forall|i: int|
                        0 <= i < fs.len() && !spec_is_static(#[trigger] fs[i].signature) && fs[i].doc is Some
                            implies documented_entry(p2, fs[i].name) by {
                        if i < fs.len() - 1 {
                            assert(fs[i] == pre[i]);
                            let j = choose|j: int| 0 <= j < p.len() && #[trigger] p[j].name == pre[i].name && p[j].doc is Some;
                            assert(p2[j] == p[j]);
                        } else {
                            assert(p2[p.len() as int] == f);
                        }
                    }
                    assert forall|i: int|
                        0 <= i < fs.len() && !spec_is_static(#[trigger] fs[i].signature) && spec_is_header(fs[i].file)
                            implies header_entry(p2, fs[i].name) by {
                        if i < fs.len() - 1 {
                            assert(fs[i] == pre[i]);
                            let j = choose|j: int| 0 <= j < p.len() && #[trigger] p[j].name == pre[i].name && spec_is_header(p[j].file);
                            assert(p2[j] == p[j]);
                        } else {
                            assert(p2[p.len() as int] == f);
                        }
                    }
                },
            }
        }
    }
}

/// Merging loses no documentation and keeps the header's declaration: each public function
/// that has a doc comment somewhere gets an entry of its name with a doc comment, and each
/// public function declared in a header gets an entry of its name that comes from a header.
pub proof fn merge_keeps_docs_and_header_declarations(files: Seq<SpecSourceFile>)
    ensures
        ({
            let fs = all_functions(files);
            let e = merged_entries(files);
            &&& forall|i: int|
                0 <= i < fs.len() && !spec_is_static(#[trigger] fs[i].signature) && fs[i].doc is Some
                    ==> documented_entry(e, fs[i].name)
            &&& forall|i: int|
                0 <= i < fs.len() && !spec_is_static(#[trigger] fs[i].signature) && spec_is_header(fs[i].file)
                    ==> header_entry(e, fs[i].name)
        }),
{
    let fs = all_functions(files);
    lemma_merge_state_keeps(fs);
    let (p, l) = merge_state(fs);
    let e = p + l;
    assert forall|i: int|
        0 <= i < fs.len() && !spec_is_static(#[trigger] fs[i].signature) && fs[i].doc is Some
            implies documented_entry(e, fs[i].name) by {
        let j = choose|j: int| 0 <= j < p.len() && #[trigger] p[j].name == fs[i].name && p[j].doc is Some;
        assert(e[j] == p[j]);
    }
    assert forall|i: int|
        0 <= i < fs.len() && !spec_is_static(#[trigger] fs[i].signature) && spec_is_header(fs[i].file)
            implies header_entry(e, fs[i].name) by {
        let j = choose|j: int| 0 <= j < p.len() && #[trigger] p[j].name == fs[i].name && spec_is_header(p[j].file);
        assert(e[j] == p[j]);
    }
}

/// For a function declared in a header and defined in a source file, the order of the two
/// files does not change what merging gives: one entry, with the header's signature, file
/// and line, and the header's doc comment when it has one, else the definition's.
pub proof fn merge_pair_is_order_independent(
    fa: SpecSourceFile,
    fb: SpecSourceFile,
    h: SpecFunction,
    c: SpecFunction,
)
    requires
        fa.functions == seq![h],
        fb.functions == seq![c],
        h.name == c.name,
        !spec_is_static(h.signature),
        !spec_is_static(c.signature),
        spec_is_header(h.file),
        !spec_is_header(c.file),
    ensures
        merged_entries(seq![fa, fb]) == seq![
            SpecFunction { doc: if h.doc is Some { h.doc } else { c.doc }, ..h },
        ],
        merged_entries(seq![fb, fa]) == merged_entries(seq![fa, fb]),
{
    let expected = SpecFunction { doc: if h.doc is Some { h.doc } else { c.doc }, ..h };
    let ab = seq![fa, fb];
    let ba = seq![fb, fa];
    assert(ab.drop_last() =~= seq![fa]);
    assert(seq![fa].drop_last() =~= Seq::<SpecSourceFile>::empty());
    assert(all_functions(seq![fa]) == all_functions(seq![fa].drop_last()) + seq![h]);
    assert(all_functions(seq![fa]) =~= seq![h]);
    assert(all_functions(ab) =~= seq![h, c]);
    assert(ba.drop_last() =~= seq![fb]);
    assert(seq![fb].drop_last() =~= Seq::<SpecSourceFile>::empty());
    assert(all_functions(seq![fb]) == all_functions(seq![fb].drop_last()) + seq![c]);
    assert(all_functions(seq![fb]) =~= seq![c]);
    assert(all_functions(ba) =~= seq![c, h]);
    let s1 = seq![h];
    assert(seq![h, c].drop_last() =~= s1);
    assert(s1.drop_last() =~= Seq::<SpecFunction>::empty());
    assert(index_of_name(Seq::<SpecFunction>::empty(), h.name) is None);
    assert(merge_state(s1) == (seq![h], Seq::<SpecFunction>::empty())) by {
        assert(merge_state(s1) == merge_step(merge_state(s1.drop_last()), h));
        assert(merge_state(Seq::<SpecFunction>::empty()) == (Seq::<SpecFunction>::empty(), Seq::<SpecFunction>::empty()));
        assert(Seq::<SpecFunction>::empty().push(h) =~= seq![h]);
    }
    assert(index_of_name(seq![h], c.name) == Some(0nat));
    assert(spec_merge_into(h, c) == expected);
    assert(merge_state(seq![h, c]) == (seq![h].update(0, expected), Seq::<SpecFunction>::empty()));
    assert(seq![h].update(0, expected) =~= seq![expected]);
    assert(merged_entries(ab) =~= seq![expected]);
    let s2 = seq![c];
    assert(seq![c, h].drop_last() =~= s2);
    assert(s2.drop_last() =~= Seq::<SpecFunction>::empty());
    assert(index_of_name(Seq::<SpecFunction>::empty(), c.name) is None);
    assert(merge_state(s2) == (seq![c], Seq::<SpecFunction>::empty())) by {
        assert(merge_state(s2) == merge_step(merge_state(s2.drop_last()), c));
        assert(merge_state(Seq::<SpecFunction>::empty()) == (Seq::<SpecFunction>::empty(), Seq::<SpecFunction>::empty()));
        assert(Seq::<SpecFunction>::empty().push(c) =~= seq![c]);
    }
    assert(index_of_name(seq![c], h.name) == Some(0nat));
    assert(spec_merge_into(c, h) == expected);
    assert(merge_state(seq![c, h]) == (seq![c].update(0, expected), Seq::<SpecFunction>::empty()));
    assert(seq![c].update(0, expected) =~= seq![expected]);
    assert(merged_entries(ba) =~= seq![expected]);
}

/// `static` functions are never merged: the `static` entries that merging produces are
/// exactly the `static` declarations of the input, unchanged and in input order.
pub proof fn merge_keeps_static_functions_apart(files: Seq<SpecSourceFile>)
    ensures
        statics_of(merged_entries(files)) == statics_of(all_functions(files)),
{
    let fs = all_functions(files);
    lemma_merge_state(fs);
    let (p, l) = merge_state(fs);
    lemma_statics_none(p);
    lemma_statics_add(p, l);
    lemma_statics_idempotent(fs);
}

proof fn lemma_statics_none(p: Seq<SpecFunction>)
    requires
        forall|i: int| 0 <= i < p.len() ==> !spec_is_static(#[trigger] p[i].signature),
    ensures
        statics_of(p) == Seq::<SpecFunction>::empty(),
    decreases p.len(),
{
    if p.len() > 0 {
        assert(!spec_is_static(p[p.len() - 1].signature));
        lemma_statics_none(p.drop_last());
    }
}

proof fn lemma_statics_add(a: Seq<SpecFunction>, b: Seq<SpecFunction>)
    ensures
        statics_of(a + b) == statics_of(a) + statics_of(b),
    decreases b.len(),
{
    if b.len() == 0 {
        assert(a + b =~= a);
        assert(statics_of(a) + statics_of(b) =~= statics_of(a));
    } else {
        lemma_statics_add(a, b.drop_last());
        assert((a + b).drop_last() =~= a + b.drop_last());
        assert((a + b).last() == b.last());
        assert(statics_of(a) + statics_of(b.drop_last()).push(b.last()) =~= (statics_of(a)
            + statics_of(b.drop_last())).push(b.last()));
    }
}

proof fn lemma_statics_idempotent(s: Seq<SpecFunction>)
    ensures
        statics_of(statics_of(s)) == statics_of(s),
    decreases s.len(),
{
    if s.len() > 0 {
        lemma_statics_idempotent(s.drop_last());
        if spec_is_static(s.last().signature) {
            let t = statics_of(s.drop_last()).push(s.last());
            assert(t.drop_last() =~= statics_of(s.drop_last()));
        }
    }
}

/// Number of times `e` occurs in `s`.
pub open spec fn occurrences(s: Seq<SpecFunction>, e: SpecFunction) -> nat
    decreases s.len(),
{
    if s.len() == 0 {
        0
    } else {
        occurrences(s.drop_last(), e) + if s.last() == e {
            1nat
        } else {
            0nat
        }
    }
}

proof fn lemma_occurrences_in_class(s: Seq<SpecFunction>, e: SpecFunction)
    ensures
        occurrences(s, e) == occurrences(with_key(s, fn_key(e)), e),
    decreases s.len(),
{
    if s.len() > 0 {
        lemma_occurrences_in_class(s.drop_last(), e);
        let w = with_key(s.drop_last(), fn_key(e));
        if fn_key(s.last()) == fn_key(e) {
            assert(w.push(s.last()).drop_last() =~= w);
        }
    }
}

/// Ordering by key loses and adds nothing: a stable sort of `s` holds every item
/// exactly as many times as `s` does.
pub proof fn stable_sort_is_permutation(r: Seq<SpecFunction>, s: Seq<SpecFunction>)
    requires
        is_stable_sort_of(r, s),
    ensures
        forall|e: SpecFunction| #[trigger] occurrences(r, e) == occurrences(s, e),
{
    assert forall|e: SpecFunction| #[trigger] occurrences(r, e) == occurrences(s, e) by {
        lemma_occurrences_in_class(r, e);
        lemma_occurrences_in_class(s, e);
        assert(with_key(r, fn_key(e)) == with_key(s, fn_key(e)));
    }
}

} // verus!
