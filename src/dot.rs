//! Rendering a tree snapshot as a GraphViz DOT document.
use std::collections::HashSet;
use vstd::prelude::*;
use crate::identity::{
    assign_fingerprint, fresh_fingerprint, lemma_fresh_fingerprint, u64_count,
};
use crate::text::{
    decimal, lemma_decimal_digits, lemma_sanitized_quotes_escaped, normalize, normalize_spec,
    push_decimal, push_sanitized_label, push_sanitized_name, push_str, sanitize_label_spec,
    sanitize_name_spec, string_of,
};

verus! {

broadcast use {vstd::std_specs::hash::group_hash_axioms, vstd::std_specs::vec::group_vec_axioms};

/// A node of a tree as the renderer sees it: its display text, its raw
/// structural hash, and its children in display order.
pub struct VizTree {
    pub label: String,
    pub hash: u64,
    pub children: Vec<VizTree>,
}

/// One statement of the body of a document.
pub enum Stmt {
    /// `<fingerprint> [label="<sanitized text>"];` for a node with this text.
    Label(u64, Seq<char>),
    /// `<parent> -> <child>;`
    Edge(u64, u64),
    /// The bare `;` that ends the block of a child.
    Close,
}

/// The text of one statement, before normalization.
pub open spec fn stmt_text(s: Stmt) -> Seq<char> {
    match s {
        Stmt::Label(h, l) => decimal(h as nat) + " [label=\""@ + sanitize_label_spec(l) + "\"];\n"@,
        Stmt::Edge(p, h) => decimal(p as nat) + " -> "@ + decimal(h as nat) + ";\n"@,
        Stmt::Close => ";\n"@,
    }
}

/// The texts of `ss`, concatenated.
pub open spec fn stmts_text(ss: Seq<Stmt>) -> Seq<char>
    decreases ss.len(),
{
    if ss.len() == 0 {
        Seq::empty()
    } else {
        stmts_text(ss.drop_last()) + stmt_text(ss.last())
    }
}

/// The fingerprints of the label statements of `ss`, in order.
pub open spec fn label_ids(ss: Seq<Stmt>) -> Seq<u64>
    decreases ss.len(),
{
    if ss.len() == 0 {
        Seq::empty()
    } else {
        match ss.last() {
            Stmt::Label(h, _) => label_ids(ss.drop_last()).push(h),
            _ => label_ids(ss.drop_last()),
        }
    }
}

/// The number of edge statements of `ss`.
pub open spec fn edge_count(ss: Seq<Stmt>) -> nat
    decreases ss.len(),
{
    if ss.len() == 0 {
        0
    } else {
        match ss.last() {
            Stmt::Edge(_, _) => edge_count(ss.drop_last()) + 1,
            _ => edge_count(ss.drop_last()),
        }
    }
}

/// The number of nodes of `t`.
pub open spec fn tree_size(t: VizTree) -> nat
    decreases t, 1nat,
{
    1 + children_size(t.children, t.children.len() as nat)
}

/// The number of nodes under the first `i` of `cs`.
pub open spec fn children_size(cs: Vec<VizTree>, i: nat) -> nat
    decreases cs, i,
{
    if i == 0 || i > cs.len() {
        0
    } else {
        children_size(cs, (i - 1) as nat) + tree_size(cs[i - 1])
    }
}

/// The statements for `t` and its descendants, in pre-order, when `t` hangs
/// under `parent` and the fingerprints `seen` are taken; with the taken
/// fingerprints afterwards.
pub open spec fn visit(parent: Option<u64>, t: VizTree, seen: Set<u64>) -> (Seq<Stmt>, Set<u64>)
    decreases t, 1nat,
{
    let h = fresh_fingerprint(seen, t.hash);
    let own = match parent {
        Some(p) => seq![Stmt::Label(h, t.label@), Stmt::Edge(p, h)],
        None => seq![Stmt::Label(h, t.label@)],
    };
    let rest = visit_children(h, t.children, t.children.len() as nat, seen.insert(h));
    (own + rest.0, rest.1)
}

/// The statements for the first `i` of `cs`, children of the node with
/// fingerprint `h`, each child's block closed by a bare `;`.
pub open spec fn visit_children(h: u64, cs: Vec<VizTree>, i: nat, seen: Set<u64>) -> (
    Seq<Stmt>,
    Set<u64>,
)
    decreases cs, i,
{
    if i == 0 || i > cs.len() {
        (Seq::empty(), seen)
    } else {
        let before = visit_children(h, cs, (i - 1) as nat, seen);
        let child = visit(Some(h), cs[i - 1], before.1);
        (before.0 + child.0 + seq![Stmt::Close], child.1)
    }
}

/// The header line of a document named `name`.
pub open spec fn header(name: Seq<char>) -> Seq<char> {
    "digraph "@ + sanitize_name_spec(name) + " {"@
}

/// The document for the tree `t` under the graph name `name`.
pub open spec fn document(name: Seq<char>, t: VizTree) -> Seq<char> {
    normalize_spec(header(name) + "\n"@ + stmts_text(visit(None, t, Set::empty()).0)) + "}"@
}

proof fn lemma_stmts_text_single(s: Stmt)
    ensures
        stmts_text(seq![s]) == stmt_text(s),
{
    assert(seq![s].drop_last() == Seq::<Stmt>::empty());
    assert(stmts_text(Seq::<Stmt>::empty()) == Seq::<char>::empty());
    assert(Seq::<char>::empty() + stmt_text(s) == stmt_text(s));
}

proof fn lemma_stmts_text_concat(a: Seq<Stmt>, b: Seq<Stmt>)
    ensures
        stmts_text(a + b) == stmts_text(a) + stmts_text(b),
    decreases b.len(),
{
    if b.len() == 0 {
        assert(a + b == a);
    } else {
        lemma_stmts_text_concat(a, b.drop_last());
        assert((a + b).drop_last() == a + b.drop_last());
    }
}

proof fn lemma_label_ids_concat(a: Seq<Stmt>, b: Seq<Stmt>)
    ensures
        label_ids(a + b) == label_ids(a) + label_ids(b),
    decreases b.len(),
{
    if b.len() == 0 {
        assert(a + b == a);
    } else {
        lemma_label_ids_concat(a, b.drop_last());
        assert((a + b).drop_last() == a + b.drop_last());
    }
}

proof fn lemma_edge_count_concat(a: Seq<Stmt>, b: Seq<Stmt>)
    ensures
        edge_count(a + b) == edge_count(a) + edge_count(b),
    decreases b.len(),
{
    if b.len() == 0 {
        assert(a + b == a);
    } else {
        lemma_edge_count_concat(a, b.drop_last());
        assert((a + b).drop_last() == a + b.drop_last());
    }
}

/// Appends the statements for `t` and its descendants to `out`, taking their
/// fingerprints in `seen`.
fn draw_node(parent: Option<u64>, t: &VizTree, seen: &mut HashSet<u64>, out: &mut Vec<char>)
    requires
        old(seen)@.finite(),
    ensures
        final(out)@ == old(out)@ + stmts_text(visit(parent, *t, old(seen)@).0),
        final(seen)@ == visit(parent, *t, old(seen)@).1,
        final(seen)@.finite(),
    decreases t, 1nat,
{
    let ghost seen0 = seen@;
    let ghost out0 = out@;
    let h = assign_fingerprint(t.hash, seen);
    push_decimal(out, h);
    push_str(out, " [label=\"");
    push_sanitized_label(out, t.label.as_str());
    push_str(out, "\"];\n");
    let ghost own_label = seq![Stmt::Label(h, t.label@)];
    proof {
        lemma_stmts_text_single(Stmt::Label(h, t.label@));
    }
    let ghost own = own_label;
    match parent {
        Some(p) => {
            push_decimal(out, p);
            push_str(out, " -> ");
            push_decimal(out, h);
            push_str(out, ";\n");
            proof {
                own = seq![Stmt::Label(h, t.label@), Stmt::Edge(p, h)];
                assert(own.drop_last() == own_label);
            }
        },
        None => {},
    }
    assert(out@ == out0 + stmts_text(own));
    let mut i: usize = 0;
    while i < t.children.len()
        invariant
            i <= t.children.len(),
            seen@.finite(),
            seen@ == visit_children(h, t.children, i as nat, seen0.insert(h)).1,
            out@ == out0 + stmts_text(own) + stmts_text(
                visit_children(h, t.children, i as nat, seen0.insert(h)).0,
            ),
        decreases t.children.len() - i,
    {
        let ghost before = visit_children(h, t.children, i as nat, seen0.insert(h));
        let ghost child = visit(Some(h), t.children[i as int], before.1);
        draw_node(Some(h), &t.children[i], seen, out);
        push_str(out, ";\n");
        proof {
            let close = seq![Stmt::Close];
            lemma_stmts_text_single(Stmt::Close);
            lemma_stmts_text_concat(before.0, child.0);
            lemma_stmts_text_concat(before.0 + child.0, close);
            let after = visit_children(h, t.children, (i + 1) as nat, seen0.insert(h));
            assert(after.0 == before.0 + child.0 + close);
            assert(stmts_text(after.0) == stmts_text(before.0) + stmts_text(child.0) + ";\n"@);
            assert(out@ == out0 + stmts_text(own) + stmts_text(after.0));
        }
        i = i + 1;
    }
    proof {
        let rest = visit_children(h, t.children, t.children.len() as nat, seen0.insert(h));
        lemma_stmts_text_concat(own, rest.0);
    }
}


/// Renders the tree `t` as a DOT document named after `graph_name`.
pub fn draw_tree(graph_name: &str, t: &VizTree) -> (r: String)
    ensures
        r@ == document(graph_name@, *t),
{
    let mut raw: Vec<char> = Vec::new();
    push_str(&mut raw, "digraph ");
    push_sanitized_name(&mut raw, graph_name);
    push_str(&mut raw, " {");
    push_str(&mut raw, "\n");
    let mut seen: HashSet<u64> = HashSet::new();
    draw_node(None, t, &mut seen, &mut raw);
    let mut doc = normalize(&raw);
    push_str(&mut doc, "}");
    string_of(&doc)
}

proof fn lemma_distinct_concat(a: Seq<u64>, b: Seq<u64>, mid: Set<u64>)
    requires
        a.no_duplicates(),
        b.no_duplicates(),
        forall|i: int| 0 <= i < a.len() ==> mid.contains(#[trigger] a[i]),
        forall|j: int| 0 <= j < b.len() ==> !mid.contains(#[trigger] b[j]),
    ensures
        (a + b).no_duplicates(),
{
    let c = a + b;
    assert forall|i: int, j: int| 0 <= i < c.len() && 0 <= j < c.len() && i != j implies c[i]
        != c[j] by {
        if i < a.len() && j >= a.len() {
            assert(mid.contains(a[i]));
            assert(!mid.contains(b[j - a.len()]));
        } else if j < a.len() && i >= a.len() {
            assert(mid.contains(a[j]));
            assert(!mid.contains(b[i - a.len()]));
        }
    }
}

proof fn lemma_label_ids_of_own(h: u64, l: Seq<char>, p: u64)
    ensures
        label_ids(seq![Stmt::Label(h, l)]) == seq![h],
        label_ids(seq![Stmt::Label(h, l), Stmt::Edge(p, h)]) == seq![h],
        edge_count(seq![Stmt::Label(h, l)]) == 0,
        edge_count(seq![Stmt::Label(h, l), Stmt::Edge(p, h)]) == 1,
        label_ids(seq![Stmt::Close]) == Seq::<u64>::empty(),
        edge_count(seq![Stmt::Close]) == 0,
{
    let one = seq![Stmt::Label(h, l)];
    let two = seq![Stmt::Label(h, l), Stmt::Edge(p, h)];
    assert(label_ids(Seq::<Stmt>::empty()) == Seq::<u64>::empty());
    assert(edge_count(Seq::<Stmt>::empty()) == 0);
    assert(one.drop_last() == Seq::<Stmt>::empty());
    assert(one.last() == Stmt::Label(h, l));
    assert(Seq::<u64>::empty().push(h) == seq![h]);
    assert(label_ids(one) == seq![h]);
    assert(edge_count(one) == 0);
    assert(two.drop_last() == one);
    assert(two.last() == Stmt::Edge(p, h));
    assert(seq![Stmt::Close].drop_last() == Seq::<Stmt>::empty());
    assert(Seq::<u64>::empty().push(h) == seq![h]);
}

/// What a visit adds: one label statement per node and one edge statement
/// per node but the top one when it has no parent; and, where the taken
/// fingerprints and the nodes together do not outnumber the `u64` values,
/// one fresh fingerprint per node, all distinct.
proof fn lemma_visit(parent: Option<u64>, t: VizTree, seen: Set<u64>)
    requires
        seen.finite(),
    ensures
        ({
            let (st, after) = visit(parent, t, seen);
            &&& label_ids(st).len() == tree_size(t)
            &&& edge_count(st) + (if parent is Some { 0nat } else { 1nat }) == tree_size(t)
            &&& after.finite()
            &&& seen.subset_of(after)
            &&& seen.len() + tree_size(t) <= u64_count() ==> {
                &&& after.len() == seen.len() + tree_size(t)
                &&& label_ids(st).no_duplicates()
                &&& forall|i: int|
                    0 <= i < label_ids(st).len() ==> !seen.contains(#[trigger] label_ids(st)[i])
                &&& forall|i: int|
                    0 <= i < label_ids(st).len() ==> after.contains(#[trigger] label_ids(st)[i])
            }
        }),
    decreases t, 1nat,
{
    let h = fresh_fingerprint(seen, t.hash);
    let s1 = seen.insert(h);
    let own = match parent {
        Some(p) => seq![Stmt::Label(h, t.label@), Stmt::Edge(p, h)],
        None => seq![Stmt::Label(h, t.label@)],
    };
    let n = t.children.len() as nat;
    let rest = visit_children(h, t.children, n, s1);
    let st = own + rest.0;
    lemma_visit_children(h, t.children, n, s1);
    lemma_label_ids_concat(own, rest.0);
    lemma_edge_count_concat(own, rest.0);
    match parent {
        Some(p) => lemma_label_ids_of_own(h, t.label@, p),
        None => lemma_label_ids_of_own(h, t.label@, 0),
    }
    assert(visit(parent, t, seen) == (st, rest.1));
    assert(label_ids(st) == seq![h] + label_ids(rest.0));
    if seen.len() + tree_size(t) <= u64_count() {
        lemma_fresh_fingerprint(seen, t.hash);
        assert(s1.len() == seen.len() + 1);
        let ids = label_ids(rest.0);
        assert forall|i: int| 0 <= i < seq![h].len() implies s1.contains(#[trigger] seq![h][i]) by {}
        lemma_distinct_concat(seq![h], ids, s1);
        assert forall|i: int| 0 <= i < label_ids(st).len() implies !seen.contains(
            #[trigger] label_ids(st)[i],
        ) && rest.1.contains(label_ids(st)[i]) by {
            if i > 0 {
                assert(label_ids(st)[i] == ids[i - 1]);
            }
        }
    }
}

/// The same for the first `i` children of a node whose fingerprint is `h`.
proof fn lemma_visit_children(h: u64, cs: Vec<VizTree>, i: nat, seen: Set<u64>)
    requires
        seen.finite(),
    ensures
        ({
            let (st, after) = visit_children(h, cs, i, seen);
            &&& label_ids(st).len() == children_size(cs, i)
            &&& edge_count(st) == children_size(cs, i)
            &&& after.finite()
            &&& seen.subset_of(after)
            &&& seen.len() + children_size(cs, i) <= u64_count() ==> {
                &&& after.len() == seen.len() + children_size(cs, i)
                &&& label_ids(st).no_duplicates()
                &&& forall|k: int|
                    0 <= k < label_ids(st).len() ==> !seen.contains(#[trigger] label_ids(st)[k])
                &&& forall|k: int|
                    0 <= k < label_ids(st).len() ==> after.contains(#[trigger] label_ids(st)[k])
            }
        }),
    decreases cs, i,
{
    if i == 0 || i > cs.len() {
        assert(label_ids(Seq::<Stmt>::empty()) == Seq::<u64>::empty());
        assert(edge_count(Seq::<Stmt>::empty()) == 0);
    } else {
        let before = visit_children(h, cs, (i - 1) as nat, seen);
        let child = visit(Some(h), cs[i - 1], before.1);
        let close = seq![Stmt::Close];
        lemma_visit_children(h, cs, (i - 1) as nat, seen);
        lemma_label_ids_of_own(h, Seq::empty(), h);
        lemma_label_ids_concat(before.0, child.0);
        lemma_label_ids_concat(before.0 + child.0, close);
        lemma_edge_count_concat(before.0, child.0);
        lemma_edge_count_concat(before.0 + child.0, close);
        let a = label_ids(before.0);
        let b = label_ids(child.0);
        assert(label_ids(before.0 + child.0 + close) == a + b);
        if seen.len() + children_size(cs, i) <= u64_count() {
            lemma_visit(Some(h), cs[i - 1], before.1);
            lemma_distinct_concat(a, b, before.1);
            assert forall|k: int| 0 <= k < (a + b).len() implies !seen.contains(
                #[trigger] (a + b)[k],
            ) && child.1.contains((a + b)[k]) by {
                if k >= a.len() {
                    assert((a + b)[k] == b[k - a.len()]);
                } else {
                    assert((a + b)[k] == a[k]);
                }
            }
        } else {
            lemma_visit(Some(h), cs[i - 1], before.1);
        }
    }
}

/// For every tree, the document body holds one label statement per node and
/// one edge statement per node but the root.
pub proof fn lemma_statement_counts(t: VizTree)
    ensures
        label_ids(visit(None, t, Set::empty()).0).len() == tree_size(t),
        edge_count(visit(None, t, Set::empty()).0) + 1 == tree_size(t),
{
    lemma_visit(None, t, Set::empty());
}

/// Within one rendering no two nodes share a fingerprint, whatever their
/// raw hashes, for every tree that has no more nodes than there are `u64`
/// values.
pub proof fn lemma_fingerprints_distinct(t: VizTree)
    requires
        tree_size(t) <= u64_count(),
    ensures
        label_ids(visit(None, t, Set::empty()).0).no_duplicates(),
{
    lemma_visit(None, t, Set::empty());
}


/// In the label statement of a node, the label is delimited by two quotes
/// and every other quote directly follows a backslash.
pub proof fn lemma_label_statement_quotes(h: u64, l: Seq<char>)
    ensures
        ({
            let x = stmt_text(Stmt::Label(h, l));
            let open_at = decimal(h as nat).len() + 8int;
            let close_at = open_at + 1 + sanitize_label_spec(l).len();
            &&& x[open_at] == '"'
            &&& x[close_at] == '"'
            &&& forall|i: int|
                0 <= i < x.len() && #[trigger] x[i] == '"' && i != open_at && i != close_at ==> i
                    > 0 && x[i - 1] == '\\'
        }),
{
    reveal_strlit(" [label=\"");
    reveal_strlit("\"];\n");
    let d = decimal(h as nat);
    let san = sanitize_label_spec(l);
    let x = stmt_text(Stmt::Label(h, l));
    lemma_decimal_digits(h as nat);
    lemma_sanitized_quotes_escaped(l);
    let open_at = d.len() + 8int;
    let close_at = open_at + 1 + san.len();
    assert(x == d + " [label=\""@ + san + "\"];\n"@);
    assert forall|i: int|
        0 <= i < x.len() && #[trigger] x[i] == '"' && i != open_at && i != close_at implies i > 0
            && x[i - 1] == '\\' by {
        if i < d.len() {
            assert(x[i] == d[i]);
        } else if i < d.len() + 9 {
            assert(x[i] == " [label=\""@[i - d.len()]);
        } else if i < d.len() + 9 + san.len() {
            assert(x[i] == san[i - d.len() - 9]);
            if i > d.len() + 9 {
                assert(x[i - 1] == san[i - 1 - d.len() - 9]);
            } else {
                assert(san[0] == '"');
            }
        } else {
            assert(x[i] == "\"];\n"@[i - d.len() - 9 - san.len()]);
        }
    }
}


/// `x` is in `known` or has a label statement in `ss`.
pub open spec fn is_known(known: Set<u64>, ss: Seq<Stmt>, x: u64) -> bool {
    known.contains(x) || label_ids(ss).contains(x)
}

/// Each edge statement of `ss` joins two fingerprints that are in `known` or
/// labelled before it.
pub open spec fn edges_grounded(ss: Seq<Stmt>, known: Set<u64>) -> bool {
    forall|k: int|
        0 <= k < ss.len() && (#[trigger] ss[k]) is Edge ==> is_known(known, ss.take(k), ss[k]->Edge_0)
            && is_known(known, ss.take(k), ss[k]->Edge_1)
}

proof fn lemma_grounded_concat(a: Seq<Stmt>, b: Seq<Stmt>, known: Set<u64>, later: Set<u64>)
    requires
        edges_grounded(a, known),
        edges_grounded(b, later),
        forall|x: u64| later.contains(x) ==> is_known(known, a, x),
    ensures
        edges_grounded(a + b, known),
{
    let c = a + b;
    assert forall|k: int| 0 <= k < c.len() && (#[trigger] c[k]) is Edge implies is_known(
        known,
        c.take(k),
        c[k]->Edge_0,
    ) && is_known(known, c.take(k), c[k]->Edge_1) by {
        if k < a.len() {
            assert(c.take(k) == a.take(k));
            assert(c[k] == a[k]);
        } else {
            let j = k - a.len();
            assert(c[k] == b[j]);
            assert(c.take(k) == a + b.take(j));
            lemma_label_ids_concat(a, b.take(j));
            let ids = label_ids(a + b.take(j));
            assert forall|x: u64| is_known(later, b.take(j), x) implies is_known(
                known,
                c.take(k),
                x,
            ) by {
                if later.contains(x) {
                    if !known.contains(x) {
                        let i = choose|i: int| 0 <= i < label_ids(a).len() && label_ids(a)[i] == x;
                        assert(ids[i] == x);
                    }
                } else {
                    let i = choose|i: int|
                        0 <= i < label_ids(b.take(j)).len() && label_ids(b.take(j))[i] == x;
                    assert(ids[label_ids(a).len() + i] == x);
                }
            }
        }
    }
}

proof fn lemma_visit_grounded(parent: Option<u64>, t: VizTree, seen: Set<u64>)
    ensures
        edges_grounded(
            visit(parent, t, seen).0,
            match parent {
                Some(p) => set![p],
                None => Set::empty(),
            },
        ),
    decreases t, 1nat,
{
    let known = match parent {
        Some(p) => set![p],
        None => Set::<u64>::empty(),
    };
    let h = fresh_fingerprint(seen, t.hash);
    let own = match parent {
        Some(p) => seq![Stmt::Label(h, t.label@), Stmt::Edge(p, h)],
        None => seq![Stmt::Label(h, t.label@)],
    };
    let n = t.children.len() as nat;
    let rest = visit_children(h, t.children, n, seen.insert(h));
    lemma_visit_children_grounded(h, t.children, n, seen.insert(h));
    match parent {
        Some(p) => {
            lemma_label_ids_of_own(h, t.label@, p);
            assert(own.take(1) == seq![Stmt::Label(h, t.label@)]);
            assert(label_ids(own.take(1))[0] == h);
        },
        None => {
            lemma_label_ids_of_own(h, t.label@, 0);
        },
    }
    assert(edges_grounded(own, known));
    assert(label_ids(own)[0] == h);
    lemma_grounded_concat(own, rest.0, known, set![h]);
}

proof fn lemma_visit_children_grounded(h: u64, cs: Vec<VizTree>, i: nat, seen: Set<u64>)
    ensures
        edges_grounded(visit_children(h, cs, i, seen).0, set![h]),
    decreases cs, i,
{
    if i > 0 && i <= cs.len() {
        let before = visit_children(h, cs, (i - 1) as nat, seen);
        let child = visit(Some(h), cs[i - 1], before.1);
        let close = seq![Stmt::Close];
        lemma_visit_children_grounded(h, cs, (i - 1) as nat, seen);
        lemma_visit_grounded(Some(h), cs[i - 1], before.1);
        lemma_grounded_concat(before.0, child.0, set![h], set![h]);
        assert(edges_grounded(close, set![h]));
        lemma_grounded_concat(before.0 + child.0, close, set![h], set![h]);
    }
}

/// Every edge statement of a document body joins two fingerprints whose
/// label statements come before it.
pub proof fn lemma_edges_follow_labels(t: VizTree)
    ensures
        edges_grounded(visit(None, t, Set::empty()).0, Set::empty()),
{
    lemma_visit_grounded(None, t, Set::empty());
}

} // verus!
