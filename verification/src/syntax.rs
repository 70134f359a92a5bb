//! The syntax tree of a C source as the library holds it: every node of the tree
//! that the C grammar gives, in preorder, with its kind, field name, byte range,
//! rows and links to its parent and children.
use vstd::prelude::*;

use crate::model::seq_view;

verus! {

/// One node of a syntax tree.
#[derive(Debug)]
pub struct SyntaxNode {
    /// The grammar's name for the node (`function_definition`, `identifier`, `;`, ...).
    pub kind: String,
    /// Whether the node is named in the grammar (not a bare token).
    pub named: bool,
    /// The field of its parent that the node fills, if any (`declarator`, `body`, ...).
    pub field: Option<String>,
    pub start_byte: usize,
    pub end_byte: usize,
    /// Rows (zero-based) where the node starts and ends.
    pub start_row: usize,
    pub end_row: usize,
    /// Index of the parent node; `None` for the root.
    pub parent: Option<usize>,
    /// Position of the node among its parent's children.
    pub slot: usize,
}

/// A syntax tree: its nodes in preorder, the root first, and for each node the indices
/// of its children, in order.
#[derive(Debug)]
pub struct SyntaxTree {
    pub nodes: Vec<SyntaxNode>,
    pub children: Vec<Vec<usize>>,
}

/// Whether `t` is a well-formed tree: the root first and without parent, every other node
/// after its parent and found at its slot among the parent's children, every child after
/// its parent and pointing back to it.
pub open spec fn wf(t: SyntaxTree) -> bool {
    let n = t.nodes@;
    let c = t.children@;
    &&& n.len() > 0
    &&& c.len() == n.len()
    &&& n[0].parent is None
    &&& forall|i: int| 0 <= i < n.len() ==> #[trigger] n[i].start_row < usize::MAX
    &&& forall|i: int|
        #![trigger n[i].parent]
        1 <= i < n.len() ==> {
            &&& n[i].parent matches Some(p)
            &&& p < i
            &&& n[i].slot < c[p as int]@.len()
            &&& c[p as int]@[n[i].slot as int] == i
        }
    &&& forall|i: int, k: int|
        0 <= i < n.len() && 0 <= k < c[i]@.len() ==> {
            &&& i < #[trigger] c[i]@[k] < n.len()
            &&& n[c[i]@[k] as int].parent == Some(i as usize)
            &&& n[c[i]@[k] as int].slot == k
        }
}

/// Why a source could not be turned into a syntax tree.
#[derive(Debug, PartialEq, Eq)]
pub enum SyntaxError {
    /// The parser refused the C grammar.
    Grammar,
    /// The parser gave no tree.
    Parse,
    /// The parser's nodes, with their depths, did not form one tree in preorder.
    Shape,
    /// A node starts on a row past the last line number that a `usize` holds.
    TooManyLines,
}


/// One node of the tree that tree-sitter's C grammar gives, as the parser reports it in
/// preorder: its kind, whether it is named, the field it fills, its byte range and rows, and
/// its depth below the root.
#[derive(Debug)]
pub struct RawNode {
    pub kind: String,
    pub named: bool,
    pub field: Option<String>,
    pub start_byte: usize,
    pub end_byte: usize,
    pub start_row: usize,
    pub end_row: usize,
    pub depth: usize,
}

pub struct SpecRawNode {
    pub kind: Seq<char>,
    pub named: bool,
    pub field: Option<Seq<char>>,
    pub start_byte: usize,
    pub end_byte: usize,
    pub start_row: usize,
    pub end_row: usize,
    pub depth: usize,
}

impl View for RawNode {
    type V = SpecRawNode;

    open spec fn view(&self) -> SpecRawNode {
        SpecRawNode {
            kind: self.kind@,
            named: self.named,
            field: self.field.deep_view(),
            start_byte: self.start_byte,
            end_byte: self.end_byte,
            start_row: self.start_row,
            end_row: self.end_row,
            depth: self.depth,
        }
    }
}

/// The raw node of these parts.
fn raw_node(
    kind: String,
    named: bool,
    field: Option<String>,
    start_byte: usize,
    end_byte: usize,
    start_row: usize,
    end_row: usize,
    depth: usize,
) -> (r: RawNode)
    ensures
        r == (RawNode { kind, named, field, start_byte, end_byte, start_row, end_row, depth }),
{
    RawNode { kind, named, field, start_byte, end_byte, start_row, end_row, depth }
}

/// The nodes, in preorder, of the tree that tree-sitter's C grammar gives for a source text,
/// or why the parser gave none.
pub uninterp spec fn c_syntax_nodes(source: Seq<char>) -> Result<Seq<SpecRawNode>, SyntaxError>;

pub open spec fn raw_result_view(r: Result<Vec<RawNode>, SyntaxError>) -> Result<Seq<SpecRawNode>, SyntaxError> {
    match r {
        Ok(v) => Ok(seq_view(v@)),
        Err(e) => Err(e),
    }
}

/// The nodes of the parse of `source` with the C grammar of `tree_sitter_c`
/// (`Parser::set_language`, `Parser::parse`), each read at its preorder index with
/// `TreeCursor::goto_descendant` and converted one for one. The contract claims that the
/// result depends on the source alone, named `c_syntax_nodes` (no timeout or cancellation
/// is set, so the parse is deterministic), and that the only errors are a refused grammar
/// and a missing tree.
#[verifier::external_body]
fn c_syntax(source: &str) -> (r: Result<Vec<RawNode>, SyntaxError>)
    ensures
        raw_result_view(r) == c_syntax_nodes(source@),
        r matches Err(e) ==> e == SyntaxError::Grammar || e == SyntaxError::Parse,
{
    let mut parser = tree_sitter::Parser::new();
    parser.set_language(&tree_sitter_c::LANGUAGE.into()).map_err(|_| SyntaxError::Grammar)?;
    let tree = parser.parse(source, None).ok_or(SyntaxError::Parse)?;
    let mut c = tree.walk();
    Ok((0..tree.root_node().descendant_count()).map(|i| {
        c.goto_descendant(i);
        let n = c.node();
        let field = c.field_name().map(|f| f.to_string());
        raw_node(n.kind().to_string(), n.is_named(), field, n.start_byte(), n.end_byte(),
            n.start_position().row, n.end_position().row, c.depth() as usize)
    }).collect())
}

/// The last of the first `n` nodes of `raw` whose depth is `d`.
pub open spec fn last_at_depth(raw: Seq<SpecRawNode>, n: nat, d: usize) -> Option<usize>
    decreases n,
{
    if n == 0 {
        None
    } else if raw[n - 1].depth == d {
        Some((n - 1) as usize)
    } else {
        last_at_depth(raw, (n - 1) as nat, d)
    }
}

/// The parent of node `i`: the last node before it one level up; the root has none.
pub open spec fn raw_parent(raw: Seq<SpecRawNode>, i: int) -> Option<usize> {
    if raw[i].depth == 0 {
        None
    } else {
        last_at_depth(raw, i as nat, (raw[i].depth - 1) as usize)
    }
}

/// Whether the nodes form one tree in preorder: the root first, at depth 0, and every other
/// node below it, with a node one level up before it.
pub open spec fn raw_shaped(raw: Seq<SpecRawNode>) -> bool {
    &&& raw.len() > 0
    &&& raw[0].depth == 0
    &&& forall|i: int| 1 <= i < raw.len() ==> raw[i].depth > 0 && (#[trigger] raw_parent(raw, i)) is Some
}

/// Whether every node starts on a row whose line number a `usize` holds.
pub open spec fn rows_fit(raw: Seq<SpecRawNode>) -> bool {
    forall|i: int| 0 <= i < raw.len() ==> (#[trigger] raw[i]).start_row < usize::MAX
}

/// The children of node `q` among the first `n` nodes, in order.
pub open spec fn kids_upto(raw: Seq<SpecRawNode>, q: usize, n: nat) -> Seq<usize>
    decreases n,
{
    if n == 0 {
        seq![]
    } else if raw_parent(raw, n - 1) == Some(q) {
        kids_upto(raw, q, (n - 1) as nat).push((n - 1) as usize)
    } else {
        kids_upto(raw, q, (n - 1) as nat)
    }
}

/// Position of node `i` among its parent's children.
pub open spec fn raw_slot(raw: Seq<SpecRawNode>, i: int) -> nat {
    match raw_parent(raw, i) {
        Some(p) => kids_upto(raw, p, i as nat).len(),
        None => 0,
    }
}

/// Whether `x` is the raw node `r`, placed under `parent` at `slot`.
pub open spec fn node_is(x: SyntaxNode, r: SpecRawNode, parent: Option<usize>, slot: nat) -> bool {
    &&& x.kind@ == r.kind
    &&& x.named == r.named
    &&& x.field.deep_view() == r.field
    &&& x.start_byte == r.start_byte
    &&& x.end_byte == r.end_byte
    &&& x.start_row == r.start_row
    &&& x.end_row == r.end_row
    &&& x.parent == parent
    &&& x.slot == slot
}

/// Whether `t` is the tree that the preorder nodes `raw` describe: node for node, each
/// under the last node before it one level up, and each node's children in order.
pub open spec fn lowered(t: SyntaxTree, raw: Seq<SpecRawNode>) -> bool {
    &&& t.nodes@.len() == raw.len()
    &&& t.children@.len() == raw.len()
    &&& forall|i: int| 0 <= i < raw.len() ==> node_is(#[trigger] t.nodes@[i], raw[i], raw_parent(raw, i), raw_slot(raw, i))
    &&& forall|q: int| 0 <= q < raw.len() ==> (#[trigger] t.children@[q])@ == kids_upto(raw, q as usize, raw.len())
}

proof fn lemma_last_at_depth(raw: Seq<SpecRawNode>, n: nat, d: usize)
    requires
        n <= usize::MAX,
    ensures
        last_at_depth(raw, n, d) matches Some(k) ==> k < n && raw[k as int].depth == d,
    decreases n,
{
    if n > 0 {
        lemma_last_at_depth(raw, (n - 1) as nat, d);
    }
}

/// The parent of each node, when the nodes form one tree.
fn raw_parents(raw: &Vec<RawNode>) -> (r: Option<Vec<Option<usize>>>)
    ensures
        match r {
            Some(ps) => raw_shaped(seq_view(raw@)) && ps@.len() == raw@.len() && forall|j: int|
                0 <= j < ps@.len() ==> #[trigger] ps@[j] == raw_parent(seq_view(raw@), j),
            None => !raw_shaped(seq_view(raw@)),
        },
{
    let ghost rv = seq_view(raw@);
    if raw.len() == 0 || raw[0].depth != 0 {
        assert(raw.len() > 0 ==> rv[0].depth == raw@[0].depth);
        return None;
    }
    let mut last: Vec<Option<usize>> = Vec::new();
    let mut ps: Vec<Option<usize>> = Vec::new();
    let mut i: usize = 0;
    while i < raw.len()
        invariant
            rv == seq_view(raw@),
            rv.len() > 0,
            rv[0].depth == 0,
            i <= rv.len(),
            ps@.len() == i,
            forall|j: int| 0 <= j < i ==> #[trigger] ps@[j] == raw_parent(rv, j),
            forall|j: int| 1 <= j < i ==> rv[j].depth > 0 && (#[trigger] raw_parent(rv, j)) is Some,
            forall|d: usize| #![trigger last_at_depth(rv, i as nat, d)] d < last@.len() ==> last@[d as int] == last_at_depth(rv, i as nat, d),
            forall|d: usize| #![trigger last_at_depth(rv, i as nat, d)] d >= last@.len() ==> last_at_depth(rv, i as nat, d) is None,
            i == 0 ==> last@.len() == 0,
        decreases rv.len() - i,
    {
        let dep = raw[i].depth;
        assert(rv[i as int].depth == dep);
        let parent = if i == 0 {
            None
        } else {
            if dep == 0 {
                assert(!(rv[i as int].depth > 0));
                return None;
            }
            if dep - 1 >= last.len() {
                assert(last_at_depth(rv, i as nat, (dep - 1) as usize) is None);
                assert(raw_parent(rv, i as int) is None);
                return None;
            }
            match last[dep - 1] {
                Some(p) => Some(p),
                None => {
                    assert(last_at_depth(rv, i as nat, (dep - 1) as usize) is None);
                    assert(raw_parent(rv, i as int) is None);
                    return None;
                },
            }
        };
        assert(parent == raw_parent(rv, i as int));
        ps.push(parent);
        let ghost old_last = last@;
        if dep < last.len() {
            last.set(dep, Some(i));
        } else {
            last.push(Some(i));
        }
        assert forall|d: usize| #![trigger last_at_depth(rv, (i + 1) as nat, d)] d < last@.len() implies last@[d as int] == last_at_depth(rv, (i + 1) as nat, d) by {
            if d != dep {
                assert(last_at_depth(rv, (i + 1) as nat, d) == last_at_depth(rv, i as nat, d));
            }
        }
        assert forall|d: usize| #![trigger last_at_depth(rv, (i + 1) as nat, d)] d >= last@.len() implies last_at_depth(rv, (i + 1) as nat, d) is None by {
            assert(last_at_depth(rv, (i + 1) as nat, d) == last_at_depth(rv, i as nat, d));
        }
        i += 1;
    }
    Some(ps)
}

/// Whether the parents `ps` place each node after its parent, the root first and alone
/// without one.
pub open spec fn parents_precede(ps: Seq<Option<usize>>) -> bool {
    &&& ps.len() > 0
    &&& ps[0] is None
    &&& forall|i: int| 1 <= i < ps.len() ==> (#[trigger] ps[i] matches Some(p) && p < i)
}

/// The tree that the preorder nodes `raw` describe, when they form one tree and every
/// row fits.
fn lower_raw(raw: &Vec<RawNode>) -> (r: Result<SyntaxTree, SyntaxError>)
    ensures
        !raw_shaped(seq_view(raw@)) ==> r == Err::<SyntaxTree, SyntaxError>(SyntaxError::Shape),
        raw_shaped(seq_view(raw@)) && !rows_fit(seq_view(raw@)) ==> r == Err::<SyntaxTree, SyntaxError>(
            SyntaxError::TooManyLines,
        ),
        raw_shaped(seq_view(raw@)) && rows_fit(seq_view(raw@)) ==> (r matches Ok(t) && wf(t) && lowered(t, seq_view(raw@))),
{
    let ghost rv = seq_view(raw@);
    let ps = match raw_parents(raw) {
        Some(ps) => ps,
        None => {
            return Err(SyntaxError::Shape);
        },
    };
    let n = raw.len();
    proof {
        assert(ps@[0] == raw_parent(rv, 0));
        assert forall|i: int| 1 <= i < ps@.len() implies (#[trigger] ps@[i] matches Some(p) && p < i) by {
            assert(ps@[i] == raw_parent(rv, i));
            lemma_last_at_depth(rv, i as nat, (rv[i].depth - 1) as usize);
        }
    }
    let mut i: usize = 0;
    while i < n
        invariant
            n == raw@.len(),
            rv == seq_view(raw@),
            raw_shaped(rv),
            i <= n,
            forall|j: int| 0 <= j < i ==> (#[trigger] rv[j]).start_row < usize::MAX,
        decreases n - i,
    {
        assert(rv[i as int].start_row == raw@[i as int].start_row);
        if raw[i].start_row == usize::MAX {
            return Err(SyntaxError::TooManyLines);
        }
        i += 1;
    }
    assert(rows_fit(rv));
    let mut children: Vec<Vec<usize>> = Vec::new();
    let mut i: usize = 0;
    while i < n
        invariant
            i <= n,
            children@.len() == i,
            forall|k: int| 0 <= k < i ==> #[trigger] children@[k]@.len() == 0,
        decreases n - i,
    {
        children.push(Vec::new());
        i += 1;
    }
    let mut nodes: Vec<SyntaxNode> = Vec::new();
    let mut i: usize = 0;
    while i < n
        invariant
            n == raw@.len(),
            rv == seq_view(raw@),
            rows_fit(rv),
            ps@.len() == n,
            forall|j: int| 0 <= j < n ==> #[trigger] ps@[j] == raw_parent(rv, j),
            parents_precede(ps@),
            i <= n,
            nodes@.len() == i,
            children@.len() == n,
            forall|j: int| 0 <= j < i ==> node_is(#[trigger] nodes@[j], rv[j], raw_parent(rv, j), raw_slot(rv, j)),
            forall|q: int| 0 <= q < n ==> (#[trigger] children@[q])@ == kids_upto(rv, q as usize, i as nat),
            forall|j: int|
                #![trigger nodes@[j].slot]
                1 <= j < i ==> {
                    let p = nodes@[j].parent->0;
                    &&& nodes@[j].slot < children@[p as int]@.len()
                    &&& children@[p as int]@[nodes@[j].slot as int] == j
                },
            forall|q: int, k: int|
                0 <= q < n && 0 <= k < children@[q]@.len() ==> {
                    &&& q < #[trigger] children@[q]@[k] < i
                    &&& nodes@[children@[q]@[k] as int].parent == Some(q as usize)
                    &&& nodes@[children@[q]@[k] as int].slot == k
                },
        decreases n - i,
    {
        let r = &raw[i];
        assert(rv[i as int] == r@);
        let ghost before = children@;
        let ghost nodes_before = nodes@;
        let parent = ps[i];
        assert(parent == raw_parent(rv, i as int));
        let slot = match parent {
            Some(p) => {
                assert(p < i);
                let s = children[p].len();
                children[p].push(i);
                assert(children@[p as int]@ == before[p as int]@.push(i));
                assert(forall|q: int| 0 <= q < n && q != p ==> #[trigger] children@[q] == before[q]);
                s
            },
            None => {
                assert(i == 0);
                0
            },
        };
        let node = SyntaxNode {
            kind: r.kind.clone(),
            named: r.named,
            field: crate::model::copy_opt_string(&r.field),
            start_byte: r.start_byte,
            end_byte: r.end_byte,
            start_row: r.start_row,
            end_row: r.end_row,
            parent,
            slot,
        };
        assert(node_is(node, rv[i as int], raw_parent(rv, i as int), raw_slot(rv, i as int)));
        nodes.push(node);
        assert(forall|j: int| 0 <= j < i ==> #[trigger] nodes@[j] == nodes_before[j]);
        assert forall|q: int| 0 <= q < n implies (#[trigger] children@[q])@ == kids_upto(rv, q as usize, (i + 1) as nat) by {
            if parent == Some(q as usize) {
                assert(children@[q]@ == before[q]@.push(i));
            } else {
                assert(children@[q] == before[q]);
            }
        }
        assert forall|j: int|
            #![trigger nodes@[j].slot]
            1 <= j < i + 1 implies {
                let p = nodes@[j].parent->0;
                &&& nodes@[j].slot < children@[p as int]@.len()
                &&& children@[p as int]@[nodes@[j].slot as int] == j
            } by {
            if j < i {
                assert(nodes@[j] == nodes_before[j]);
                assert(ps@[j] == raw_parent(rv, j));
                let p = nodes@[j].parent->0;
                if parent == Some(p) {
                    assert(children@[p as int]@ == before[p as int]@.push(i));
                } else {
                    assert(children@[p as int] == before[p as int]);
                }
            } else {
                assert(ps@[j] == raw_parent(rv, j));
            }
        }
        assert forall|q: int, k: int|
            0 <= q < n && 0 <= k < children@[q]@.len() implies {
                &&& q < #[trigger] children@[q]@[k] < i + 1
                &&& nodes@[children@[q]@[k] as int].parent == Some(q as usize)
                &&& nodes@[children@[q]@[k] as int].slot == k
            } by {
            if parent == Some(q as usize) {
                assert(children@[q]@ == before[q]@.push(i));
                if k < before[q]@.len() {
                    assert(children@[q]@[k] == before[q]@[k]);
                }
            } else {
                assert(children@[q] == before[q]);
            }
        }
        i += 1;
    }
    let t = SyntaxTree { nodes, children };
    assert(ps@[0] == raw_parent(rv, 0));
    assert(t.nodes@[0].parent is None);
    assert forall|j: int|
        #![trigger t.nodes@[j].parent]
        1 <= j < t.nodes@.len() implies {
            &&& t.nodes@[j].parent matches Some(p)
            &&& p < j
            &&& t.nodes@[j].slot < t.children@[p as int]@.len()
            &&& t.children@[p as int]@[t.nodes@[j].slot as int] == j
        } by {
        assert(ps@[j] == raw_parent(rv, j));
        assert(ps@[j] matches Some(p) && p < j);
    }
    assert forall|j: int| 0 <= j < t.nodes@.len() implies #[trigger] t.nodes@[j].start_row < usize::MAX by {
        assert(node_is(t.nodes@[j], rv[j], raw_parent(rv, j), raw_slot(rv, j)));
    }
    Ok(t)
}

/// The syntax tree of a C source, as the C grammar of `tree_sitter_c` gives it: the
/// parser's nodes (`c_syntax_nodes`) made into a tree, or why there is none.
pub fn syntax_tree(source: &str) -> (r: Result<SyntaxTree, SyntaxError>)
    ensures
        match c_syntax_nodes(source@) {
            Err(e) => r == Err::<SyntaxTree, SyntaxError>(e),
            Ok(raw) => if !raw_shaped(raw) {
                r == Err::<SyntaxTree, SyntaxError>(SyntaxError::Shape)
            } else if !rows_fit(raw) {
                r == Err::<SyntaxTree, SyntaxError>(SyntaxError::TooManyLines)
            } else {
                r matches Ok(t) && wf(t) && lowered(t, raw)
            },
        },
{
    match c_syntax(source) {
        Ok(raw) => lower_raw(&raw),
        Err(e) => Err(e),
    }
}

} // verus!
