//! Vertical constraint graph construction.
//!
//! A fact is an ordered path of node names with, per segment, a list of
//! action labels and a list of percept labels. Each live (non-empty after
//! trimming) action label yields an "actuates" edge, each live percept
//! label a "senses" edge, and a segment with no live label at all yields a
//! single "fake" edge. A synthetic root node is then added with a fake
//! edge to every source, so the graph has a unique root.
//!
//! Node names are interned: a node is an index into `nodes`, and every
//! contract speaks of names, so the numbering never matters to callers.

use vstd::prelude::*;

use crate::error::Error;
use crate::strings::{intern, trim_of, trim_str};

verus! {

/// The relation kind an edge carries.
#[derive(Clone, Copy, Debug, PartialEq, Eq, Structural, Hash)]
pub enum Rel {
    Actuates,
    Senses,
    Fake,
}

/// One directed edge of the vertical constraint graph: `src` must lie
/// strictly above `dst`.
#[derive(Clone, Copy, Debug, PartialEq, Eq, Structural)]
pub struct VcgEdge {
    pub src: usize,
    pub dst: usize,
    pub rel: Rel,
}

/// One parsed input row: an ordered path of names plus per-segment label
/// lists (actions, percepts).
#[derive(Clone, Debug)]
pub struct Fact {
    pub path: Vec<String>,
    pub labels_by_level: Vec<(Vec<Option<String>>, Vec<Option<String>>)>,
}

/// The ordered display labels recorded for one `(src, dst, rel)` triple.
#[derive(Clone, Debug)]
pub struct EdgeLabelRow {
    pub src: usize,
    pub dst: usize,
    pub rel: Rel,
    pub labels: Vec<String>,
}

/// The vertical constraint graph.
#[derive(Clone, Debug)]
pub struct Vcg {
    /// Interned node names; a node id is an index here.
    pub nodes: Vec<String>,
    /// The edges, as id pairs tagged with their relation kind.
    pub edges: Vec<VcgEdge>,
    /// Display names per node id.
    pub vert_node_labels: Vec<String>,
    /// Display edge labels per `(src, dst, rel)`.
    pub vert_edge_labels: Vec<EdgeLabelRow>,
    /// The id of the synthetic root node.
    pub root: usize,
}

/// The action labels of segment `n` of the fact; a segment past the label
/// table has none.
pub open spec fn actions_of(f: Fact, n: int) -> Seq<Option<String>> {
    if 0 <= n < f.labels_by_level@.len() {
        f.labels_by_level@[n].0@
    } else {
        Seq::empty()
    }
}

/// The percept labels of segment `n` of the fact.
pub open spec fn percepts_of(f: Fact, n: int) -> Seq<Option<String>> {
    if 0 <= n < f.labels_by_level@.len() {
        f.labels_by_level@[n].1@
    } else {
        Seq::empty()
    }
}

/// A label that survives trimming.
pub open spec fn is_live_label(l: Option<String>) -> bool {
    match l {
        Some(a) => trim_of(a@).len() > 0,
        None => false,
    }
}

/// Segment `n` of the fact runs from `v` to `w`.
pub open spec fn fact_adjacent(f: Fact, n: int, v: Seq<char>, w: Seq<char>) -> bool {
    0 <= n && n + 1 < f.path@.len() && f.path@[n]@ == v && f.path@[n + 1]@ == w
}

/// Some label of the list is live.
pub open spec fn live_in(ls: Seq<Option<String>>) -> bool {
    exists|k: int| 0 <= k < ls.len() && is_live_label(#[trigger] ls[k])
}

/// Some live label of the list trims to `l`.
pub open spec fn live_trimmed(ls: Seq<Option<String>>, l: Seq<char>) -> bool {
    exists|k: int|
        0 <= k < ls.len() && match #[trigger] ls[k] {
            Some(a) => trim_of(a@) == l && l.len() > 0,
            None => false,
        }
}

/// Some segment of the fact runs from `v` to `w` with a live action label.
pub open spec fn fact_has_action(f: Fact, v: Seq<char>, w: Seq<char>) -> bool {
    exists|n: int| #[trigger] fact_adjacent(f, n, v, w) && live_in(actions_of(f, n))
}

/// Some segment of the fact runs from `v` to `w` with a live percept label.
pub open spec fn fact_has_percept(f: Fact, v: Seq<char>, w: Seq<char>) -> bool {
    exists|n: int| #[trigger] fact_adjacent(f, n, v, w) && live_in(percepts_of(f, n))
}

/// Some segment of the fact runs from `v` to `w` with an action label that
/// trims to `l`.
pub open spec fn fact_action_label(f: Fact, v: Seq<char>, w: Seq<char>, l: Seq<char>) -> bool {
    exists|n: int| #[trigger] fact_adjacent(f, n, v, w) && live_trimmed(actions_of(f, n), l)
}

/// Some segment of the fact runs from `v` to `w` with a percept label that
/// trims to `l`.
pub open spec fn fact_percept_label(f: Fact, v: Seq<char>, w: Seq<char>, l: Seq<char>) -> bool {
    exists|n: int| #[trigger] fact_adjacent(f, n, v, w) && live_trimmed(percepts_of(f, n), l)
}

/// Some fact has a segment from `v` to `w` with an action label trimming
/// to `l`.
pub open spec fn pair_action_label(facts: Seq<Fact>, v: Seq<char>, w: Seq<char>, l: Seq<char>)
    -> bool {
    exists|fi: int| 0 <= fi < facts.len() && fact_action_label(#[trigger] facts[fi], v, w, l)
}

/// Some fact has a segment from `v` to `w` with a percept label trimming
/// to `l`.
pub open spec fn pair_percept_label(facts: Seq<Fact>, v: Seq<char>, w: Seq<char>, l: Seq<char>)
    -> bool {
    exists|fi: int| 0 <= fi < facts.len() && fact_percept_label(#[trigger] facts[fi], v, w, l)
}

/// Some fact has a segment from `v` to `w` with a live action label.
pub open spec fn pair_has_action(facts: Seq<Fact>, v: Seq<char>, w: Seq<char>) -> bool {
    exists|fi: int| 0 <= fi < facts.len() && fact_has_action(#[trigger] facts[fi], v, w)
}

/// Some fact has a segment from `v` to `w` with a live percept label.
pub open spec fn pair_has_percept(facts: Seq<Fact>, v: Seq<char>, w: Seq<char>) -> bool {
    exists|fi: int| 0 <= fi < facts.len() && fact_has_percept(#[trigger] facts[fi], v, w)
}

/// Some fact has a segment from `v` to `w`.
pub open spec fn pair_adjacent(facts: Seq<Fact>, v: Seq<char>, w: Seq<char>) -> bool {
    exists|fi: int| 0 <= fi < facts.len() && fact_pair(#[trigger] facts[fi], v, w)
}

/// The name occurs on some fact path.
pub open spec fn fact_node(facts: Seq<Fact>, x: Seq<char>) -> bool {
    exists|fi: int| 0 <= fi < facts.len() && path_has_name((#[trigger] facts[fi]).path@, x)
}

/// Some fact segment ends at the name, so the graph gives it an incoming
/// edge.
pub open spec fn fact_has_incoming(facts: Seq<Fact>, w: Seq<char>) -> bool {
    exists|v: Seq<char>| pair_adjacent(facts, v, w)
}

impl Vcg {
    /// Node names are distinct, every edge and label row names valid ids,
    /// and the display-name table runs parallel to the nodes.
    pub open spec fn wf(self) -> bool {
        &&& forall|i: int, j: int|
            0 <= i < j < self.nodes@.len() ==> (#[trigger] self.nodes@[i])@ != (
            #[trigger] self.nodes@[j])@
        &&& forall|e: int|
            0 <= e < self.edges@.len() ==> (#[trigger] self.edges@[e]).src < self.nodes@.len()
                && self.edges@[e].dst < self.nodes@.len()
        &&& forall|r: int|
            0 <= r < self.vert_edge_labels@.len() ==> (#[trigger] self.vert_edge_labels@[r]).src
                < self.nodes@.len() && self.vert_edge_labels@[r].dst < self.nodes@.len()
        &&& self.vert_node_labels@.len() == self.nodes@.len()
        &&& self.root < self.nodes@.len()
    }

    /// Whether a node of this name exists.
    pub open spec fn has_node(self, x: Seq<char>) -> bool {
        has_name(self.nodes@, x)
    }

    /// An edge between the named nodes carrying the given relation.
    pub open spec fn has_edge_named(self, v: Seq<char>, w: Seq<char>, rel: Rel) -> bool {
        edges_have(self.edges@, self.nodes@, v, w, rel)
    }

    /// A display label recorded for the named pair under the relation.
    pub open spec fn has_label_named(self, v: Seq<char>, w: Seq<char>, rel: Rel, l: Seq<char>)
        -> bool {
        rows_have(self.vert_edge_labels@, self.nodes@, v, w, rel, l)
    }
}


/// An edge of the given relation runs between the named nodes.
pub open spec fn edges_have(
    edges: Seq<VcgEdge>,
    nodes: Seq<String>,
    v: Seq<char>,
    w: Seq<char>,
    rel: Rel,
) -> bool {
    exists|e: int|
        0 <= e < edges.len() && (#[trigger] edges[e]).rel == rel && edges[e].src < nodes.len()
            && edges[e].dst < nodes.len() && nodes[edges[e].src as int]@ == v
            && nodes[edges[e].dst as int]@ == w
}

/// A display label is recorded for the named pair under the relation.
pub open spec fn rows_have(
    rows: Seq<EdgeLabelRow>,
    nodes: Seq<String>,
    v: Seq<char>,
    w: Seq<char>,
    rel: Rel,
    l: Seq<char>,
) -> bool {
    exists|r: int, p: int|
        0 <= r < rows.len() && rows[r].rel == rel && rows[r].src < nodes.len() && rows[r].dst
            < nodes.len() && nodes[rows[r].src as int]@ == v && nodes[rows[r].dst as int]@ == w
            && 0 <= p < rows[r].labels@.len() && (#[trigger] rows[r].labels@[p])@ == l
}

/// Every edge names valid ids.
pub open spec fn edges_valid(edges: Seq<VcgEdge>, n: int) -> bool {
    forall|e: int|
        0 <= e < edges.len() ==> (#[trigger] edges[e]).src < n && edges[e].dst < n
}

/// Every label row names valid ids.
pub open spec fn rows_valid(rows: Seq<EdgeLabelRow>, n: int) -> bool {
    forall|r: int|
        0 <= r < rows.len() ==> (#[trigger] rows[r]).src < n && rows[r].dst < n
}

/// Node names are pairwise distinct.
pub open spec fn nodes_distinct(nodes: Seq<String>) -> bool {
    forall|i: int, j: int|
        0 <= i < j < nodes.len() ==> (#[trigger] nodes[i])@ != (#[trigger] nodes[j])@
}

proof fn lemma_edges_push(edges: Seq<VcgEdge>, nodes: Seq<String>, e: VcgEdge)
    requires
        e.src < nodes.len(),
        e.dst < nodes.len(),
    ensures
        forall|v: Seq<char>, w: Seq<char>, rl: Rel|
            #![trigger edges_have(edges.push(e), nodes, v, w, rl)]
            edges_have(edges.push(e), nodes, v, w, rl) <==> edges_have(edges, nodes, v, w, rl)
                || (v == nodes[e.src as int]@ && w == nodes[e.dst as int]@ && rl == e.rel),
{
    assert forall|v: Seq<char>, w: Seq<char>, rl: Rel|
        edges_have(edges.push(e), nodes, v, w, rl) <==> edges_have(edges, nodes, v, w, rl) || (v
            == nodes[e.src as int]@ && w == nodes[e.dst as int]@ && rl == e.rel) by {
        if edges_have(edges.push(e), nodes, v, w, rl) {
            let i = choose|i: int|
                0 <= i < edges.push(e).len() && (#[trigger] edges.push(e)[i]).rel == rl
                    && edges.push(e)[i].src < nodes.len() && edges.push(e)[i].dst < nodes.len()
                    && nodes[edges.push(e)[i].src as int]@ == v
                    && nodes[edges.push(e)[i].dst as int]@ == w;
            if i < edges.len() {
                assert(edges[i] == edges.push(e)[i]);
                assert(edges_have(edges, nodes, v, w, rl));
            } else {
                assert(edges.push(e)[i] == e);
            }
        }
        if edges_have(edges, nodes, v, w, rl) {
            let i = choose|i: int|
                0 <= i < edges.len() && (#[trigger] edges[i]).rel == rl && edges[i].src
                    < nodes.len() && edges[i].dst < nodes.len() && nodes[edges[i].src as int]@
                    == v && nodes[edges[i].dst as int]@ == w;
            assert(edges.push(e)[i] == edges[i]);
            assert(edges_have(edges.push(e), nodes, v, w, rl));
        }
        if v == nodes[e.src as int]@ && w == nodes[e.dst as int]@ && rl == e.rel {
            assert(edges.push(e)[edges.len() as int] == e);
            assert(edges_have(edges.push(e), nodes, v, w, rl));
        }
    }
}

proof fn lemma_edges_nodes_grow(edges: Seq<VcgEdge>, nodes: Seq<String>, bigger: Seq<String>)
    requires
        edges_valid(edges, nodes.len() as int),
        bigger.len() >= nodes.len(),
        forall|i: int| 0 <= i < nodes.len() ==> bigger[i] == nodes[i],
    ensures
        forall|v: Seq<char>, w: Seq<char>, rl: Rel|
            #![trigger edges_have(edges, bigger, v, w, rl)]
            edges_have(edges, bigger, v, w, rl) <==> edges_have(edges, nodes, v, w, rl),
{
    assert forall|v: Seq<char>, w: Seq<char>, rl: Rel|
        edges_have(edges, bigger, v, w, rl) <==> edges_have(edges, nodes, v, w, rl) by {
        if edges_have(edges, bigger, v, w, rl) {
            let i = choose|i: int|
                0 <= i < edges.len() && (#[trigger] edges[i]).rel == rl && edges[i].src
                    < bigger.len() && edges[i].dst < bigger.len() && bigger[edges[i].src as int]@
                    == v && bigger[edges[i].dst as int]@ == w;
            assert(bigger[edges[i].src as int] == nodes[edges[i].src as int]);
            assert(bigger[edges[i].dst as int] == nodes[edges[i].dst as int]);
            assert(edges_have(edges, nodes, v, w, rl));
        }
        if edges_have(edges, nodes, v, w, rl) {
            let i = choose|i: int|
                0 <= i < edges.len() && (#[trigger] edges[i]).rel == rl && edges[i].src
                    < nodes.len() && edges[i].dst < nodes.len() && nodes[edges[i].src as int]@
                    == v && nodes[edges[i].dst as int]@ == w;
            assert(bigger[edges[i].src as int] == nodes[edges[i].src as int]);
            assert(bigger[edges[i].dst as int] == nodes[edges[i].dst as int]);
            assert(edges_have(edges, bigger, v, w, rl));
        }
    }
}

proof fn lemma_rows_nodes_grow(rows: Seq<EdgeLabelRow>, nodes: Seq<String>, bigger: Seq<String>)
    requires
        rows_valid(rows, nodes.len() as int),
        bigger.len() >= nodes.len(),
        forall|i: int| 0 <= i < nodes.len() ==> bigger[i] == nodes[i],
    ensures
        forall|v: Seq<char>, w: Seq<char>, rl: Rel, l: Seq<char>|
            #![trigger rows_have(rows, bigger, v, w, rl, l)]
            rows_have(rows, bigger, v, w, rl, l) <==> rows_have(rows, nodes, v, w, rl, l),
{
    assert forall|v: Seq<char>, w: Seq<char>, rl: Rel, l: Seq<char>|
        rows_have(rows, bigger, v, w, rl, l) <==> rows_have(rows, nodes, v, w, rl, l) by {
        if rows_have(rows, bigger, v, w, rl, l) {
            let (r, p) = choose|r: int, p: int|
                0 <= r < rows.len() && rows[r].rel == rl && rows[r].src
                    < bigger.len() && rows[r].dst < bigger.len() && bigger[rows[r].src as int]@
                    == v && bigger[rows[r].dst as int]@ == w && 0 <= p < rows[r].labels@.len()
                    && (#[trigger] rows[r].labels@[p])@ == l;
            assert(bigger[rows[r].src as int] == nodes[rows[r].src as int]);
            assert(bigger[rows[r].dst as int] == nodes[rows[r].dst as int]);
            assert(rows_have(rows, nodes, v, w, rl, l));
        }
        if rows_have(rows, nodes, v, w, rl, l) {
            let (r, p) = choose|r: int, p: int|
                0 <= r < rows.len() && rows[r].rel == rl && rows[r].src
                    < nodes.len() && rows[r].dst < nodes.len() && nodes[rows[r].src as int]@
                    == v && nodes[rows[r].dst as int]@ == w && 0 <= p < rows[r].labels@.len()
                    && (#[trigger] rows[r].labels@[p])@ == l;
            assert(bigger[rows[r].src as int] == nodes[rows[r].src as int]);
            assert(bigger[rows[r].dst as int] == nodes[rows[r].dst as int]);
            assert(rows_have(rows, bigger, v, w, rl, l));
        }
    }
}

/// Record one display label for `(src, dst, rel)`, appending to the
/// matching row or opening a new one.
fn record_label(
    rows: &mut Vec<EdgeLabelRow>,
    nodes: &Vec<String>,
    src: usize,
    dst: usize,
    rel: Rel,
    label: String,
)
    requires
        src < nodes@.len(),
        dst < nodes@.len(),
        rows_valid(old(rows)@, nodes@.len() as int),
    ensures
        rows_valid(final(rows)@, nodes@.len() as int),
        forall|v: Seq<char>, w: Seq<char>, rl: Rel, l: Seq<char>|
            rows_have(final(rows)@, nodes@, v, w, rl, l) <==> rows_have(
                old(rows)@,
                nodes@,
                v,
                w,
                rl,
                l,
            ) || (v == nodes@[src as int]@ && w == nodes@[dst as int]@ && rl == rel && l
                == label@),
{
    let mut r: usize = 0;
    while r < rows.len()
        invariant
            src < nodes@.len(),
            dst < nodes@.len(),
            rows_valid(rows@, nodes@.len() as int),
            *rows == *old(rows),
            r <= rows@.len(),
            forall|rr: int|
                0 <= rr < r ==> !((#[trigger] rows@[rr]).src == src && rows@[rr].dst == dst
                    && rows@[rr].rel == rel),
        decreases rows@.len() - r,
    {
        let row = &rows[r];
        if row.src == src && row.dst == dst && row.rel == rel {
            let ghost pre = rows@;
            proof {
                assert(pre == old(rows)@);
            }
            let mut labels = Vec::new();
            core::mem::swap(&mut labels, &mut rows[r].labels);
            labels.push(label);
            core::mem::swap(&mut labels, &mut rows[r].labels);
            proof {
                assert(rows@[r as int].labels@ =~= pre[r as int].labels@.push(label));
                assert(rows@[r as int].src == src && rows@[r as int].dst == dst
                    && rows@[r as int].rel == rel);
                assert forall|v: Seq<char>, w: Seq<char>, rl: Rel, l: Seq<char>|
                    rows_have(rows@, nodes@, v, w, rl, l) <==> rows_have(
                        old(rows)@,
                        nodes@,
                        v,
                        w,
                        rl,
                        l,
                    ) || (v == nodes@[src as int]@ && w == nodes@[dst as int]@ && rl == rel
                        && l == label@) by {
                    assert(rows_have(old(rows)@, nodes@, v, w, rl, l) == rows_have(
                        pre,
                        nodes@,
                        v,
                        w,
                        rl,
                        l,
                    ));
                    if rows_have(rows@, nodes@, v, w, rl, l) {
                        let (rr, p) = choose|rr: int, p: int|
                            0 <= rr < rows@.len() && rows@[rr].rel == rl
                                && rows@[rr].src < nodes@.len() && rows@[rr].dst < nodes@.len()
                                && nodes@[rows@[rr].src as int]@ == v
                                && nodes@[rows@[rr].dst as int]@ == w && 0 <= p
                                < rows@[rr].labels@.len() && (#[trigger] rows@[rr].labels@[p])@ == l;
                        if rr != r {
                            assert(rows@[rr] == pre[rr]);
                            assert(rows_have(pre, nodes@, v, w, rl, l));
                        } else {
                            if p < pre[r as int].labels@.len() {
                                assert(rows@[r as int].labels@[p] == pre[r as int].labels@[p]);
                                assert(rows_have(pre, nodes@, v, w, rl, l));
                            } else {
                                assert(rows@[r as int].labels@[p] == label);
                            }
                        }
                    }
                    if rows_have(pre, nodes@, v, w, rl, l) {
                        let (rr, p) = choose|rr: int, p: int|
                            0 <= rr < pre.len() && pre[rr].rel == rl && pre[rr].src
                                < nodes@.len() && pre[rr].dst < nodes@.len()
                                && nodes@[pre[rr].src as int]@ == v && nodes@[pre[rr].dst
                                as int]@ == w && 0 <= p < pre[rr].labels@.len()
                                && (#[trigger] pre[rr].labels@[p])@ == l;
                        if rr != r {
                            assert(rows@[rr] == pre[rr]);
                        } else {
                            assert(rows@[r as int].labels@[p] == pre[r as int].labels@[p]);
                        }
                        assert(rows_have(rows@, nodes@, v, w, rl, l));
                    }
                    if v == nodes@[src as int]@ && w == nodes@[dst as int]@ && rl == rel && l
                        == label@ {
                        let p = pre[r as int].labels@.len() as int;
                        assert(rows@[r as int].labels@[p] == label);
                        assert(rows_have(rows@, nodes@, v, w, rl, l));
                    }
                }
            }
            return ;
        }
        r = r + 1;
    }
    let ghost pre = rows@;
    proof {
        assert(pre == old(rows)@);
    }
    let mut labels = Vec::new();
    labels.push(label);
    let row = EdgeLabelRow { src, dst, rel, labels };
    rows.push(row);
    proof {
        assert(rows@ =~= pre.push(row));
        assert forall|v: Seq<char>, w: Seq<char>, rl: Rel, l: Seq<char>|
            rows_have(rows@, nodes@, v, w, rl, l) <==> rows_have(
                old(rows)@,
                nodes@,
                v,
                w,
                rl,
                l,
            ) || (v == nodes@[src as int]@ && w == nodes@[dst as int]@ && rl == rel && l
                == label@) by {
            assert(rows_have(old(rows)@, nodes@, v, w, rl, l) == rows_have(
                pre,
                nodes@,
                v,
                w,
                rl,
                l,
            ));
            if rows_have(rows@, nodes@, v, w, rl, l) {
                let (rr, p) = choose|rr: int, p: int|
                    0 <= rr < rows@.len() && rows@[rr].rel == rl && rows@[rr].src
                        < nodes@.len() && rows@[rr].dst < nodes@.len()
                        && nodes@[rows@[rr].src as int]@ == v && nodes@[rows@[rr].dst as int]@
                        == w && 0 <= p < rows@[rr].labels@.len() && (#[trigger] rows@[rr].labels@[p])@ == l;
                if rr < pre.len() {
                    assert(rows@[rr] == pre[rr]);
                    assert(rows_have(pre, nodes@, v, w, rl, l));
                } else {
                    assert(rows@[rr] == row);
                    assert(rows@[rr].labels@[p] == label);
                }
            }
            if rows_have(pre, nodes@, v, w, rl, l) {
                let (rr, p) = choose|rr: int, p: int|
                    0 <= rr < pre.len() && pre[rr].rel == rl && pre[rr].src
                        < nodes@.len() && pre[rr].dst < nodes@.len()
                        && nodes@[pre[rr].src as int]@ == v && nodes@[pre[rr].dst as int]@ == w
                        && 0 <= p < pre[rr].labels@.len() && (#[trigger] pre[rr].labels@[p])@ == l;
                assert(rows@[rr] == pre[rr]);
                assert(rows_have(rows@, nodes@, v, w, rl, l));
            }
            if v == nodes@[src as int]@ && w == nodes@[dst as int]@ && rl == rel && l == label@ {
                assert(rows@[pre.len() as int] == row);
                assert(rows@[pre.len() as int].labels@[0] == label);
                assert(rows_have(rows@, nodes@, v, w, rl, l));
            }
        }
    }
}


/// Add one edge per live label of one side of a segment, recording the
/// trimmed labels under the relation.
fn process_side(
    nodes: &Vec<String>,
    edges: &mut Vec<VcgEdge>,
    rows: &mut Vec<EdgeLabelRow>,
    src: usize,
    dst: usize,
    labels: &Vec<Option<String>>,
    rel: Rel,
)
    requires
        src < nodes@.len(),
        dst < nodes@.len(),
        edges_valid(old(edges)@, nodes@.len() as int),
        rows_valid(old(rows)@, nodes@.len() as int),
    ensures
        edges_valid(final(edges)@, nodes@.len() as int),
        rows_valid(final(rows)@, nodes@.len() as int),
        forall|v: Seq<char>, w: Seq<char>, rl: Rel|
            edges_have(final(edges)@, nodes@, v, w, rl) <==> edges_have(
                old(edges)@,
                nodes@,
                v,
                w,
                rl,
            ) || (v == nodes@[src as int]@ && w == nodes@[dst as int]@ && rl == rel && live_in(
                labels@,
            )),
        forall|v: Seq<char>, w: Seq<char>, rl: Rel, l: Seq<char>|
            rows_have(final(rows)@, nodes@, v, w, rl, l) <==> rows_have(
                old(rows)@,
                nodes@,
                v,
                w,
                rl,
                l,
            ) || (v == nodes@[src as int]@ && w == nodes@[dst as int]@ && rl == rel
                && live_trimmed(labels@, l)),
{
    let mut k: usize = 0;
    while k < labels.len()
        invariant
            src < nodes@.len(),
            dst < nodes@.len(),
            k <= labels@.len(),
            edges_valid(edges@, nodes@.len() as int),
            rows_valid(rows@, nodes@.len() as int),
            forall|v: Seq<char>, w: Seq<char>, rl: Rel|
                edges_have(edges@, nodes@, v, w, rl) <==> edges_have(
                    old(edges)@,
                    nodes@,
                    v,
                    w,
                    rl,
                ) || (v == nodes@[src as int]@ && w == nodes@[dst as int]@ && rl == rel
                    && live_in(labels@.take(k as int))),
            forall|v: Seq<char>, w: Seq<char>, rl: Rel, l: Seq<char>|
                rows_have(rows@, nodes@, v, w, rl, l) <==> rows_have(
                    old(rows)@,
                    nodes@,
                    v,
                    w,
                    rl,
                    l,
                ) || (v == nodes@[src as int]@ && w == nodes@[dst as int]@ && rl == rel
                    && live_trimmed(labels@.take(k as int), l)),
        decreases labels@.len() - k,
    {
        let ghost kk = k as int;
        match &labels[k] {
            Some(a) => {
                let t = trim_str(a.as_str());
                if !t.as_str().is_empty() {
                    proof {
                        assert(is_live_label(labels@[kk]));
                    }
                    let ghost edges_pre = edges@;
                    let e = VcgEdge { src, dst, rel };
                    edges.push(e);
                    proof {
                        assert(edges@ =~= edges_pre.push(e));
                        lemma_edges_push(edges_pre, nodes@, e);
                    }
                    let ghost rows_pre = rows@;
                    record_label(rows, nodes, src, dst, rel, t);
                    proof {
                        assert(labels@.take(kk + 1)[kk] == labels@[kk]);
                        assert(live_in(labels@.take(kk + 1)));
                        assert(live_trimmed(labels@.take(kk + 1), trim_of(a@)));
                        assert forall|v: Seq<char>, w: Seq<char>, rl: Rel|
                            edges_have(edges@, nodes@, v, w, rl) <==> edges_have(
                                old(edges)@,
                                nodes@,
                                v,
                                w,
                                rl,
                            ) || (v == nodes@[src as int]@ && w == nodes@[dst as int]@ && rl
                                == rel && live_in(labels@.take(kk + 1))) by {
                            if live_in(labels@.take(kk)) {
                                let x = choose|x: int|
                                    0 <= x < labels@.take(kk).len() && is_live_label(
                                        #[trigger] labels@.take(kk)[x],
                                    );
                                assert(labels@.take(kk + 1)[x] == labels@.take(kk)[x]);
                                assert(live_in(labels@.take(kk + 1)));
                            }
                            lemma_edges_push(edges_pre, nodes@, e);
                            assert(edges_have(edges_pre.push(e), nodes@, v, w, rl)
                                == edges_have(edges@, nodes@, v, w, rl));
                            assert(edges_have(edges@, nodes@, v, w, rl) == (edges_have(
                                edges_pre,
                                nodes@,
                                v,
                                w,
                                rl,
                            ) || (v == nodes@[e.src as int]@ && w == nodes@[e.dst as int]@ && rl
                                == e.rel)));
                        }
                        assert forall|v: Seq<char>, w: Seq<char>, rl: Rel, l: Seq<char>|
                            rows_have(rows@, nodes@, v, w, rl, l) <==> rows_have(
                                old(rows)@,
                                nodes@,
                                v,
                                w,
                                rl,
                                l,
                            ) || (v == nodes@[src as int]@ && w == nodes@[dst as int]@ && rl
                                == rel && live_trimmed(labels@.take(kk + 1), l)) by {
                            if rows_have(rows@, nodes@, v, w, rl, l) {
                                assert(rows_have(rows_pre, nodes@, v, w, rl, l) || (v
                                    == nodes@[src as int]@ && w == nodes@[dst as int]@ && rl
                                    == rel && l == trim_of(a@)));
                            }
                            if live_trimmed(labels@.take(kk), l) {
                                let x = choose|x: int|
                                    0 <= x < labels@.take(kk).len() && match #[trigger] labels@.take(
                                        kk,
                                    )[x] {
                                        Some(b) => trim_of(b@) == l && l.len() > 0,
                                        None => false,
                                    };
                                assert(labels@.take(kk + 1)[x] == labels@.take(kk)[x]);
                                assert(live_trimmed(labels@.take(kk + 1), l));
                            }
                            if live_trimmed(labels@.take(kk + 1), l) && !live_trimmed(
                                labels@.take(kk),
                                l,
                            ) {
                                let x = choose|x: int|
                                    0 <= x < labels@.take(kk + 1).len() && match #[trigger] labels@.take(
                                        kk + 1,
                                    )[x] {
                                        Some(b) => trim_of(b@) == l && l.len() > 0,
                                        None => false,
                                    };
                                if x < kk {
                                    assert(labels@.take(kk)[x] == labels@.take(kk + 1)[x]);
                                    assert(live_trimmed(labels@.take(kk), l));
                                } else {
                                    assert(labels@.take(kk + 1)[x] == labels@[kk]);
                                    assert(l == trim_of(a@));
                                }
                            }
                        }
                    }
                } else {
                    proof {
                        assert(!is_live_label(labels@[kk]));
                        lemma_take_step_dead(labels@, kk);
                    }
                }
            },
            None => {
                proof {
                    assert(!is_live_label(labels@[kk]));
                    lemma_take_step_dead(labels@, kk);
                }
            },
        }
        k = k + 1;
    }
    proof {
        assert(labels@.take(labels@.len() as int) =~= labels@);
    }
}

/// Taking one more label that is not live changes neither liveness nor the
/// trimmed-label set of the prefix.
proof fn lemma_take_step_dead(ls: Seq<Option<String>>, k: int)
    requires
        0 <= k < ls.len(),
        !is_live_label(ls[k]),
    ensures
        live_in(ls.take(k + 1)) == live_in(ls.take(k)),
        forall|l: Seq<char>|
            #[trigger] live_trimmed(ls.take(k + 1), l) == live_trimmed(ls.take(k), l),
{
    if live_in(ls.take(k + 1)) {
        let x = choose|x: int|
            0 <= x < ls.take(k + 1).len() && is_live_label(#[trigger] ls.take(k + 1)[x]);
        if x < k {
            assert(ls.take(k)[x] == ls.take(k + 1)[x]);
            assert(live_in(ls.take(k)));
        } else {
            assert(ls.take(k + 1)[x] == ls[k]);
            assert(false);
        }
    }
    if live_in(ls.take(k)) {
        let x = choose|x: int| 0 <= x < ls.take(k).len() && is_live_label(#[trigger] ls.take(k)[x]);
        assert(ls.take(k + 1)[x] == ls.take(k)[x]);
        assert(live_in(ls.take(k + 1)));
    }
    assert forall|l: Seq<char>|
        #[trigger] live_trimmed(ls.take(k + 1), l) == live_trimmed(ls.take(k), l) by {
        if live_trimmed(ls.take(k + 1), l) {
            let x = choose|x: int|
                0 <= x < ls.take(k + 1).len() && match #[trigger] ls.take(k + 1)[x] {
                    Some(b) => trim_of(b@) == l && l.len() > 0,
                    None => false,
                };
            if x < k {
                assert(ls.take(k)[x] == ls.take(k + 1)[x]);
                assert(live_trimmed(ls.take(k), l));
            } else {
                assert(ls.take(k + 1)[x] == ls[k]);
                assert(false);
            }
        }
        if live_trimmed(ls.take(k), l) {
            let x = choose|x: int|
                0 <= x < ls.take(k).len() && match #[trigger] ls.take(k)[x] {
                    Some(b) => trim_of(b@) == l && l.len() > 0,
                    None => false,
                };
            assert(ls.take(k + 1)[x] == ls.take(k)[x]);
            assert(live_trimmed(ls.take(k + 1), l));
        }
    }
}


/// A name occurs in the node table.
pub open spec fn has_name(nodes: Seq<String>, x: Seq<char>) -> bool {
    exists|i: int| 0 <= i < nodes.len() && (#[trigger] nodes[i])@ == x
}

/// A name occurs on the path.
pub open spec fn path_has_name(path: Seq<String>, x: Seq<char>) -> bool {
    exists|i: int| 0 <= i < path.len() && (#[trigger] path[i])@ == x
}

/// The named pair is tracked.
pub open spec fn pair_in(pairs: Seq<(usize, usize)>, nodes: Seq<String>, v: Seq<char>, w: Seq<
    char,
>) -> bool {
    exists|p: int|
        0 <= p < pairs.len() && (#[trigger] pairs[p]).0 < nodes.len() && pairs[p].1 < nodes.len()
            && nodes[pairs[p].0 as int]@ == v && nodes[pairs[p].1 as int]@ == w
}

/// Every tracked pair names valid ids.
pub open spec fn pairs_valid(pairs: Seq<(usize, usize)>, n: int) -> bool {
    forall|p: int| 0 <= p < pairs.len() ==> (#[trigger] pairs[p]).0 < n && pairs[p].1 < n
}

/// Some segment of the fact runs from `v` to `w`.
pub open spec fn fact_pair(f: Fact, v: Seq<char>, w: Seq<char>) -> bool {
    exists|n: int| #[trigger] fact_adjacent(f, n, v, w)
}

/// Like [`fact_has_action`], over the segments below `m` only.
pub open spec fn fact_has_action_upto(f: Fact, v: Seq<char>, w: Seq<char>, m: int) -> bool {
    exists|n: int| n < m && #[trigger] fact_adjacent(f, n, v, w) && live_in(actions_of(f, n))
}

/// Like [`fact_has_percept`], over the segments below `m` only.
pub open spec fn fact_has_percept_upto(f: Fact, v: Seq<char>, w: Seq<char>, m: int) -> bool {
    exists|n: int| n < m && #[trigger] fact_adjacent(f, n, v, w) && live_in(percepts_of(f, n))
}

/// Like [`fact_action_label`], over the segments below `m` only.
pub open spec fn fact_action_label_upto(f: Fact, v: Seq<char>, w: Seq<char>, l: Seq<char>, m: int)
    -> bool {
    exists|n: int|
        n < m && #[trigger] fact_adjacent(f, n, v, w) && live_trimmed(actions_of(f, n), l)
}

/// Like [`fact_percept_label`], over the segments below `m` only.
pub open spec fn fact_percept_label_upto(f: Fact, v: Seq<char>, w: Seq<char>, l: Seq<char>, m: int)
    -> bool {
    exists|n: int|
        n < m && #[trigger] fact_adjacent(f, n, v, w) && live_trimmed(percepts_of(f, n), l)
}

/// Like [`fact_pair`], over the segments below `m` only.
pub open spec fn fact_pair_upto(f: Fact, v: Seq<char>, w: Seq<char>, m: int) -> bool {
    exists|n: int| n < m && #[trigger] fact_adjacent(f, n, v, w)
}

/// Intern every name of the path, returning their ids in path order.
fn intern_path(nodes: &mut Vec<String>, path: &Vec<String>) -> (ids: Vec<usize>)
    requires
        nodes_distinct(old(nodes)@),
    ensures
        nodes_distinct(final(nodes)@),
        final(nodes)@.len() >= old(nodes)@.len(),
        forall|i: int| 0 <= i < old(nodes)@.len() ==> final(nodes)@[i] == old(nodes)@[i],
        forall|x: Seq<char>|
            #![trigger has_name(final(nodes)@, x)]
            has_name(final(nodes)@, x) <==> has_name(old(nodes)@, x) || path_has_name(path@, x),
        ids@.len() == path@.len(),
        forall|i: int|
            0 <= i < ids@.len() ==> (#[trigger] ids@[i]) < final(nodes)@.len() && final(nodes)@[ids@[i] as int]@ == path@[i]@,
{
    let mut ids: Vec<usize> = Vec::new();
    let mut i: usize = 0;
    while i < path.len()
        invariant
            nodes_distinct(nodes@),
            nodes@.len() >= old(nodes)@.len(),
            forall|j: int| 0 <= j < old(nodes)@.len() ==> nodes@[j] == old(nodes)@[j],
            i <= path@.len(),
            forall|x: Seq<char>|
                #![trigger has_name(nodes@, x)]
                has_name(nodes@, x) <==> has_name(old(nodes)@, x) || path_has_name(
                    path@.take(i as int),
                    x,
                ),
            ids@.len() == i,
            forall|j: int|
                0 <= j < i ==> (#[trigger] ids@[j]) < nodes@.len() && nodes@[ids@[j] as int]@
                    == path@[j]@,
        decreases path@.len() - i,
    {
        let ghost nodes_pre = nodes@;
        let id = intern(nodes, &path[i]);
        ids.push(id);
        proof {
            assert forall|a: int, b: int|
                0 <= a < b < nodes@.len() implies (#[trigger] nodes@[a])@ != (
            #[trigger] nodes@[b])@ by {
                if b < nodes_pre.len() {
                    assert(nodes@[a] == nodes_pre[a] && nodes@[b] == nodes_pre[b]);
                } else {
                    assert(nodes@[b]@ == path@[i as int]@);
                    assert(nodes@[a] == nodes_pre[a]);
                }
            }
            assert forall|x: Seq<char>|
                has_name(nodes@, x) <==> has_name(old(nodes)@, x) || path_has_name(
                    path@.take(i + 1),
                    x,
                ) by {
                if has_name(nodes@, x) {
                    let ix = choose|ix: int|
                        0 <= ix < nodes@.len() && (#[trigger] nodes@[ix])@ == x;
                    if ix < nodes_pre.len() {
                        assert(nodes_pre[ix] == nodes@[ix]);
                        assert(has_name(nodes_pre, x));
                    } else {
                        assert(nodes@[ix]@ == path@[i as int]@);
                        assert(path@.take(i + 1)[i as int] == path@[i as int]);
                        assert(path_has_name(path@.take(i + 1), x));
                    }
                }
                if has_name(old(nodes)@, x) {
                    let ix = choose|ix: int|
                        0 <= ix < old(nodes)@.len() && (#[trigger] old(nodes)@[ix])@ == x;
                    assert(nodes@[ix] == old(nodes)@[ix]);
                    assert(has_name(nodes@, x));
                }
                if path_has_name(path@.take(i + 1), x) {
                    let ix = choose|ix: int|
                        0 <= ix < path@.take(i + 1).len() && (#[trigger] path@.take(i + 1)[ix])@
                            == x;
                    if ix < i {
                        assert(path@.take(i as int)[ix] == path@.take(i + 1)[ix]);
                        assert(path_has_name(path@.take(i as int), x));
                        assert(has_name(nodes_pre, x));
                        let iy = choose|iy: int|
                            0 <= iy < nodes_pre.len() && (#[trigger] nodes_pre[iy])@ == x;
                        assert(nodes@[iy] == nodes_pre[iy]);
                        assert(has_name(nodes@, x));
                    } else {
                        assert(path@.take(i + 1)[ix] == path@[i as int]);
                        assert(nodes@[id as int]@ == x);
                        assert(has_name(nodes@, x));
                    }
                }
            }
        }
        i = i + 1;
    }
    proof {
        assert(path@.take(path@.len() as int) =~= path@);
    }
    ids
}

/// Track the pair once.
fn push_pair(pairs: &mut Vec<(usize, usize)>, nodes: &Vec<String>, src: usize, dst: usize)
    requires
        src < nodes@.len(),
        dst < nodes@.len(),
        pairs_valid(old(pairs)@, nodes@.len() as int),
    ensures
        pairs_valid(final(pairs)@, nodes@.len() as int),
        forall|v: Seq<char>, w: Seq<char>|
            #![trigger pair_in(final(pairs)@, nodes@, v, w)]
            pair_in(final(pairs)@, nodes@, v, w) <==> pair_in(old(pairs)@, nodes@, v, w) || (v
                == nodes@[src as int]@ && w == nodes@[dst as int]@),
{
    let mut p: usize = 0;
    while p < pairs.len()
        invariant
            src < nodes@.len(),
            dst < nodes@.len(),
            pairs_valid(pairs@, nodes@.len() as int),
            *pairs == *old(pairs),
            p <= pairs@.len(),
        decreases pairs@.len() - p,
    {
        let q = pairs[p];
        if q.0 == src && q.1 == dst {
            proof {
                assert(pairs@[p as int].0 == src && pairs@[p as int].1 == dst);
                assert forall|v: Seq<char>, w: Seq<char>|
                    pair_in(pairs@, nodes@, v, w) <==> pair_in(old(pairs)@, nodes@, v, w) || (v
                        == nodes@[src as int]@ && w == nodes@[dst as int]@) by {
                    if v == nodes@[src as int]@ && w == nodes@[dst as int]@ {
                        assert(pair_in(pairs@, nodes@, v, w));
                    }
                }
            }
            return ;
        }
        p = p + 1;
    }
    let ghost pre = pairs@;
    pairs.push((src, dst));
    proof {
        assert(pairs@ =~= pre.push((src, dst)));
        assert forall|v: Seq<char>, w: Seq<char>|
            pair_in(pairs@, nodes@, v, w) <==> pair_in(old(pairs)@, nodes@, v, w) || (v
                == nodes@[src as int]@ && w == nodes@[dst as int]@) by {
            if pair_in(pairs@, nodes@, v, w) {
                let px = choose|px: int|
                    0 <= px < pairs@.len() && (#[trigger] pairs@[px]).0 < nodes@.len()
                        && pairs@[px].1 < nodes@.len() && nodes@[pairs@[px].0 as int]@ == v
                        && nodes@[pairs@[px].1 as int]@ == w;
                if px < pre.len() {
                    assert(pairs@[px] == pre[px]);
                    assert(pair_in(pre, nodes@, v, w));
                } else {
                    assert(pairs@[px] == (src, dst));
                }
            }
            if pair_in(old(pairs)@, nodes@, v, w) {
                let px = choose|px: int|
                    0 <= px < pre.len() && (#[trigger] pre[px]).0 < nodes@.len() && pre[px].1
                        < nodes@.len() && nodes@[pre[px].0 as int]@ == v && nodes@[pre[px].1
                        as int]@ == w;
                assert(pairs@[px] == pre[px]);
                assert(pair_in(pairs@, nodes@, v, w));
            }
            if v == nodes@[src as int]@ && w == nodes@[dst as int]@ {
                assert(pairs@[pre.len() as int] == (src, dst));
                assert(pair_in(pairs@, nodes@, v, w));
            }
        }
    }
}


/// Process one fact: intern its path, track its segments, and add the
/// labeled edges of every segment.
fn process_fact(
    nodes: &mut Vec<String>,
    edges: &mut Vec<VcgEdge>,
    rows: &mut Vec<EdgeLabelRow>,
    pairs: &mut Vec<(usize, usize)>,
    f: &Fact,
)
    requires
        f.path@.len() >= 1,
        nodes_distinct(old(nodes)@),
        edges_valid(old(edges)@, old(nodes)@.len() as int),
        rows_valid(old(rows)@, old(nodes)@.len() as int),
        pairs_valid(old(pairs)@, old(nodes)@.len() as int),
    ensures
        nodes_distinct(final(nodes)@),
        final(nodes)@.len() >= old(nodes)@.len(),
        forall|i: int| 0 <= i < old(nodes)@.len() ==> final(nodes)@[i] == old(nodes)@[i],
        forall|x: Seq<char>|
            #![trigger has_name(final(nodes)@, x)]
            has_name(final(nodes)@, x) <==> has_name(old(nodes)@, x) || path_has_name(
                f.path@,
                x,
            ),
        edges_valid(final(edges)@, final(nodes)@.len() as int),
        rows_valid(final(rows)@, final(nodes)@.len() as int),
        pairs_valid(final(pairs)@, final(nodes)@.len() as int),
        forall|v: Seq<char>, w: Seq<char>, rl: Rel|
            #![trigger edges_have(final(edges)@, final(nodes)@, v, w, rl)]
            edges_have(final(edges)@, final(nodes)@, v, w, rl) <==> edges_have(
                old(edges)@,
                old(nodes)@,
                v,
                w,
                rl,
            ) || (rl == Rel::Actuates && fact_has_action(*f, v, w)) || (rl == Rel::Senses
                && fact_has_percept(*f, v, w)),
        forall|v: Seq<char>, w: Seq<char>, rl: Rel, l: Seq<char>|
            #![trigger rows_have(final(rows)@, final(nodes)@, v, w, rl, l)]
            rows_have(final(rows)@, final(nodes)@, v, w, rl, l) <==> rows_have(
                old(rows)@,
                old(nodes)@,
                v,
                w,
                rl,
                l,
            ) || (rl == Rel::Actuates && fact_action_label(*f, v, w, l)) || (rl == Rel::Senses
                && fact_percept_label(*f, v, w, l)),
        forall|v: Seq<char>, w: Seq<char>|
            #![trigger pair_in(final(pairs)@, final(nodes)@, v, w)]
            pair_in(final(pairs)@, final(nodes)@, v, w) <==> pair_in(
                old(pairs)@,
                old(nodes)@,
                v,
                w,
            ) || fact_pair(*f, v, w),
{
    let ids = intern_path(nodes, &f.path);
    proof {
        lemma_edges_nodes_grow(edges@, old(nodes)@, nodes@);
        lemma_rows_nodes_grow(rows@, old(nodes)@, nodes@);
        assert forall|v: Seq<char>, w: Seq<char>|
            pair_in(pairs@, nodes@, v, w) <==> pair_in(pairs@, old(nodes)@, v, w) by {
            if pair_in(pairs@, nodes@, v, w) {
                let px = choose|px: int|
                    0 <= px < pairs@.len() && (#[trigger] pairs@[px]).0 < nodes@.len()
                        && pairs@[px].1 < nodes@.len() && nodes@[pairs@[px].0 as int]@ == v
                        && nodes@[pairs@[px].1 as int]@ == w;
                assert(pairs@[px].0 < old(nodes)@.len() && pairs@[px].1 < old(nodes)@.len());
                assert(nodes@[pairs@[px].0 as int] == old(nodes)@[pairs@[px].0 as int]);
                assert(nodes@[pairs@[px].1 as int] == old(nodes)@[pairs@[px].1 as int]);
                assert(pair_in(pairs@, old(nodes)@, v, w));
            }
            if pair_in(pairs@, old(nodes)@, v, w) {
                let px = choose|px: int|
                    0 <= px < pairs@.len() && (#[trigger] pairs@[px]).0 < old(nodes)@.len()
                        && pairs@[px].1 < old(nodes)@.len() && old(nodes)@[pairs@[px].0 as int]@
                        == v && old(nodes)@[pairs@[px].1 as int]@ == w;
                assert(nodes@[pairs@[px].0 as int] == old(nodes)@[pairs@[px].0 as int]);
                assert(nodes@[pairs@[px].1 as int] == old(nodes)@[pairs@[px].1 as int]);
                assert(pair_in(pairs@, nodes@, v, w));
            }
        }
    }
    let empty: Vec<Option<String>> = Vec::new();
    let last = f.path.len() - 1;
    let mut n: usize = 0;
    while n < last
        invariant
            f.path@.len() >= 1,
            last == f.path@.len() - 1,
            ids@.len() == f.path@.len(),
            forall|i: int|
                0 <= i < ids@.len() ==> (#[trigger] ids@[i]) < nodes@.len()
                    && nodes@[ids@[i] as int]@ == f.path@[i]@,
            empty@.len() == 0,
            n <= f.path@.len() - 1,
            nodes_distinct(nodes@),
            edges_valid(edges@, nodes@.len() as int),
            rows_valid(rows@, nodes@.len() as int),
            pairs_valid(pairs@, nodes@.len() as int),
            forall|v: Seq<char>, w: Seq<char>, rl: Rel|
                #![trigger edges_have(edges@, nodes@, v, w, rl)]
                edges_have(edges@, nodes@, v, w, rl) <==> edges_have(
                    old(edges)@,
                    old(nodes)@,
                    v,
                    w,
                    rl,
                ) || (rl == Rel::Actuates && fact_has_action_upto(*f, v, w, n as int)) || (rl
                    == Rel::Senses && fact_has_percept_upto(*f, v, w, n as int)),
            forall|v: Seq<char>, w: Seq<char>, rl: Rel, l: Seq<char>|
                #![trigger rows_have(rows@, nodes@, v, w, rl, l)]
                rows_have(rows@, nodes@, v, w, rl, l) <==> rows_have(
                    old(rows)@,
                    old(nodes)@,
                    v,
                    w,
                    rl,
                    l,
                ) || (rl == Rel::Actuates && fact_action_label_upto(*f, v, w, l, n as int)) || (
                rl == Rel::Senses && fact_percept_label_upto(*f, v, w, l, n as int)),
            forall|v: Seq<char>, w: Seq<char>|
                #![trigger pair_in(pairs@, nodes@, v, w)]
                pair_in(pairs@, nodes@, v, w) <==> pair_in(old(pairs)@, old(nodes)@, v, w)
                    || fact_pair_upto(*f, v, w, n as int),
        decreases f.path@.len() - n,
    {
        let ghost nn = n as int;
        let src = ids[n];
        let dst = ids[n + 1];
        let ghost pairs1 = pairs@;
        push_pair(pairs, nodes, src, dst);
        let acts = if n < f.labels_by_level.len() {
            &f.labels_by_level[n].0
        } else {
            &empty
        };
        let pers = if n < f.labels_by_level.len() {
            &f.labels_by_level[n].1
        } else {
            &empty
        };
        proof {
            assert(acts@ =~= actions_of(*f, nn));
            assert(pers@ =~= percepts_of(*f, nn));
        }
        let ghost edges1 = edges@;
        let ghost rows1 = rows@;
        process_side(nodes, edges, rows, src, dst, acts, Rel::Actuates);
        let ghost edges2 = edges@;
        let ghost rows2 = rows@;
        process_side(nodes, edges, rows, src, dst, pers, Rel::Senses);
        proof {
            let sv = nodes@[src as int]@;
            let dv = nodes@[dst as int]@;
            assert(fact_adjacent(*f, nn, sv, dv));
            assert forall|v: Seq<char>, w: Seq<char>, rl: Rel|
                edges_have(edges@, nodes@, v, w, rl) <==> edges_have(
                    old(edges)@,
                    old(nodes)@,
                    v,
                    w,
                    rl,
                ) || (rl == Rel::Actuates && fact_has_action_upto(*f, v, w, nn + 1)) || (rl
                    == Rel::Senses && fact_has_percept_upto(*f, v, w, nn + 1)) by {
                if fact_has_action_upto(*f, v, w, nn) {
                    assert(fact_has_action_upto(*f, v, w, nn + 1));
                }
                if fact_has_percept_upto(*f, v, w, nn) {
                    assert(fact_has_percept_upto(*f, v, w, nn + 1));
                }
                if fact_has_action_upto(*f, v, w, nn + 1) && !fact_has_action_upto(
                    *f,
                    v,
                    w,
                    nn,
                ) {
                    let x = choose|x: int|
                        x < nn + 1 && #[trigger] fact_adjacent(*f, x, v, w) && live_in(
                            actions_of(*f, x),
                        );
                    assert(x == nn);
                    assert(v == sv && w == dv);
                }
                if fact_has_percept_upto(*f, v, w, nn + 1) && !fact_has_percept_upto(
                    *f,
                    v,
                    w,
                    nn,
                ) {
                    let x = choose|x: int|
                        x < nn + 1 && #[trigger] fact_adjacent(*f, x, v, w) && live_in(
                            percepts_of(*f, x),
                        );
                    assert(x == nn);
                    assert(v == sv && w == dv);
                }
                assert(edges_have(edges@, nodes@, v, w, rl) <==> edges_have(
                    edges2,
                    nodes@,
                    v,
                    w,
                    rl,
                ) || (v == sv && w == dv && rl == Rel::Senses && live_in(pers@)));
                assert(edges_have(edges2, nodes@, v, w, rl) <==> edges_have(
                    edges1,
                    nodes@,
                    v,
                    w,
                    rl,
                ) || (v == sv && w == dv && rl == Rel::Actuates && live_in(acts@)));
            }
            assert forall|v: Seq<char>, w: Seq<char>, rl: Rel, l: Seq<char>|
                rows_have(rows@, nodes@, v, w, rl, l) <==> rows_have(
                    old(rows)@,
                    old(nodes)@,
                    v,
                    w,
                    rl,
                    l,
                ) || (rl == Rel::Actuates && fact_action_label_upto(*f, v, w, l, nn + 1)) || (rl
                    == Rel::Senses && fact_percept_label_upto(*f, v, w, l, nn + 1)) by {
                if fact_action_label_upto(*f, v, w, l, nn) {
                    assert(fact_action_label_upto(*f, v, w, l, nn + 1));
                }
                if fact_percept_label_upto(*f, v, w, l, nn) {
                    assert(fact_percept_label_upto(*f, v, w, l, nn + 1));
                }
                if fact_action_label_upto(*f, v, w, l, nn + 1) && !fact_action_label_upto(
                    *f,
                    v,
                    w,
                    l,
                    nn,
                ) {
                    let x = choose|x: int|
                        x < nn + 1 && #[trigger] fact_adjacent(*f, x, v, w) && live_trimmed(
                            actions_of(*f, x),
                            l,
                        );
                    assert(x == nn);
                    assert(v == sv && w == dv);
                }
                if fact_percept_label_upto(*f, v, w, l, nn + 1) && !fact_percept_label_upto(
                    *f,
                    v,
                    w,
                    l,
                    nn,
                ) {
                    let x = choose|x: int|
                        x < nn + 1 && #[trigger] fact_adjacent(*f, x, v, w) && live_trimmed(
                            percepts_of(*f, x),
                            l,
                        );
                    assert(x == nn);
                    assert(v == sv && w == dv);
                }
                assert(rows_have(rows@, nodes@, v, w, rl, l) <==> rows_have(
                    rows2,
                    nodes@,
                    v,
                    w,
                    rl,
                    l,
                ) || (v == sv && w == dv && rl == Rel::Senses && live_trimmed(pers@, l)));
                assert(rows_have(rows2, nodes@, v, w, rl, l) <==> rows_have(
                    rows1,
                    nodes@,
                    v,
                    w,
                    rl,
                    l,
                ) || (v == sv && w == dv && rl == Rel::Actuates && live_trimmed(acts@, l)));
            }
            assert forall|v: Seq<char>, w: Seq<char>|
                pair_in(pairs@, nodes@, v, w) <==> pair_in(old(pairs)@, old(nodes)@, v, w)
                    || fact_pair_upto(*f, v, w, nn + 1) by {
                if fact_pair_upto(*f, v, w, nn) {
                    assert(fact_pair_upto(*f, v, w, nn + 1));
                }
                if fact_pair_upto(*f, v, w, nn + 1) && !fact_pair_upto(*f, v, w, nn) {
                    let x = choose|x: int| x < nn + 1 && #[trigger] fact_adjacent(*f, x, v, w);
                    assert(x == nn);
                    assert(v == sv && w == dv);
                }
                assert(pair_in(pairs@, nodes@, v, w) <==> pair_in(pairs1, nodes@, v, w) || (v
                    == sv && w == dv));
            }
        }
        n = n + 1;
    }
    proof {
        let m = f.path@.len() - 1;
        assert forall|v: Seq<char>, w: Seq<char>, rl: Rel|
            edges_have(edges@, nodes@, v, w, rl) <==> edges_have(
                old(edges)@,
                old(nodes)@,
                v,
                w,
                rl,
            ) || (rl == Rel::Actuates && fact_has_action(*f, v, w)) || (rl == Rel::Senses
                && fact_has_percept(*f, v, w)) by {
            assert(fact_has_action_upto(*f, v, w, m) == fact_has_action(*f, v, w));
            assert(fact_has_percept_upto(*f, v, w, m) == fact_has_percept(*f, v, w));
        }
        assert forall|v: Seq<char>, w: Seq<char>, rl: Rel, l: Seq<char>|
            rows_have(rows@, nodes@, v, w, rl, l) <==> rows_have(
                old(rows)@,
                old(nodes)@,
                v,
                w,
                rl,
                l,
            ) || (rl == Rel::Actuates && fact_action_label(*f, v, w, l)) || (rl == Rel::Senses
                && fact_percept_label(*f, v, w, l)) by {
            assert(fact_action_label_upto(*f, v, w, l, m) == fact_action_label(*f, v, w, l));
            assert(fact_percept_label_upto(*f, v, w, l, m) == fact_percept_label(*f, v, w, l));
        }
        assert forall|v: Seq<char>, w: Seq<char>|
            pair_in(pairs@, nodes@, v, w) <==> pair_in(old(pairs)@, old(nodes)@, v, w)
                || fact_pair(*f, v, w) by {
            assert(fact_pair_upto(*f, v, w, m) == fact_pair(*f, v, w));
        }
    }
}


/// The name of the synthetic root node.
pub open spec fn root_name() -> Seq<char> {
    "root"@
}

/// The placeholder label recorded for a fake edge.
pub open spec fn fake_label() -> Seq<char> {
    "?"@
}

/// A segment runs between the named pair but carries no live label.
pub open spec fn unlabeled_pair(facts: Seq<Fact>, v: Seq<char>, w: Seq<char>) -> bool {
    pair_adjacent(facts, v, w) && !pair_has_action(facts, v, w) && !pair_has_percept(facts, v, w)
}

/// Whether some edge of any relation joins ids `a` and `b`, other than a
/// fake one.
fn has_live_edge(edges: &Vec<VcgEdge>, a: usize, b: usize) -> (r: bool)
    ensures
        r == exists|e: int|
            0 <= e < edges@.len() && (#[trigger] edges@[e]).src == a && edges@[e].dst == b
                && edges@[e].rel != Rel::Fake,
{
    let mut e: usize = 0;
    while e < edges.len()
        invariant
            e <= edges@.len(),
            forall|x: int|
                0 <= x < e ==> !((#[trigger] edges@[x]).src == a && edges@[x].dst == b
                    && edges@[x].rel != Rel::Fake),
        decreases edges@.len() - e,
    {
        let ed = edges[e];
        if ed.src == a && ed.dst == b && !(matches!(ed.rel, Rel::Fake)) {
            return true;
        }
        e = e + 1;
    }
    false
}

/// Some edge ends at id `y`.
pub open spec fn id_has_incoming(edges: Seq<VcgEdge>, y: int) -> bool {
    exists|e: int| 0 <= e < edges.len() && (#[trigger] edges[e]).dst == y
}

/// The id occurs in the list.
pub open spec fn id_in(ids: Seq<usize>, y: int) -> bool {
    exists|i: int| 0 <= i < ids.len() && (#[trigger] ids[i]) == y
}

/// Whether some edge ends at id `w`.
fn has_incoming_edge(edges: &Vec<VcgEdge>, w: usize) -> (r: bool)
    ensures
        r == id_has_incoming(edges@, w as int),
{
    let mut e: usize = 0;
    while e < edges.len()
        invariant
            e <= edges@.len(),
            forall|x: int| 0 <= x < e ==> (#[trigger] edges@[x]).dst != w,
        decreases edges@.len() - e,
    {
        if edges[e].dst == w {
            return true;
        }
        e = e + 1;
    }
    false
}

/// Distinct ids carry distinct names, so a name determines its id.
proof fn lemma_name_id(nodes: Seq<String>, a: int, b: int)
    requires
        nodes_distinct(nodes),
        0 <= a < nodes.len(),
        0 <= b < nodes.len(),
        nodes[a]@ == nodes[b]@,
    ensures
        a == b,
{
    if a < b {
        assert(false);
    }
    if b < a {
        assert(false);
    }
}

/// A live action label on a segment implies the segment itself.
proof fn lemma_action_adjacent(facts: Seq<Fact>, v: Seq<char>, w: Seq<char>)
    requires
        pair_has_action(facts, v, w),
    ensures
        pair_adjacent(facts, v, w),
{
    let fi = choose|fi: int| 0 <= fi < facts.len() && fact_has_action(#[trigger] facts[fi], v, w);
    let n = choose|n: int|
        #[trigger] fact_adjacent(facts[fi], n, v, w) && live_in(actions_of(facts[fi], n));
    assert(fact_pair(facts[fi], v, w));
}

/// A live percept label on a segment implies the segment itself.
proof fn lemma_percept_adjacent(facts: Seq<Fact>, v: Seq<char>, w: Seq<char>)
    requires
        pair_has_percept(facts, v, w),
    ensures
        pair_adjacent(facts, v, w),
{
    let fi = choose|fi: int| 0 <= fi < facts.len() && fact_has_percept(#[trigger] facts[fi], v, w);
    let n = choose|n: int|
        #[trigger] fact_adjacent(facts[fi], n, v, w) && live_in(percepts_of(facts[fi], n));
    assert(fact_pair(facts[fi], v, w));
}

/// Build the vertical constraint graph of the facts.
///
/// Every live action label of a segment yields an "actuates" edge, every
/// live percept label a "senses" edge, a segment with no live label at all
/// a single "fake" edge, and the synthetic root gains a fake edge to every
/// node no segment ends at.
pub fn calculate_vcg(facts: &Vec<Fact>) -> (r: Result<Vcg, Error>)
    requires
        forall|fi: int| 0 <= fi < facts@.len() ==> (#[trigger] facts@[fi]).path@.len() >= 1,
    ensures
        r is Ok,
        match r {
            Ok(vcg) => {
                &&& vcg.wf()
                &&& nodes_distinct(vcg.nodes@)
                &&& vcg.nodes@[vcg.root as int]@ == root_name()
                &&& forall|x: Seq<char>|
                    #![trigger vcg.has_node(x)]
                    vcg.has_node(x) <==> fact_node(facts@, x) || x == root_name()
                &&& forall|v: Seq<char>, w: Seq<char>|
                    #![trigger vcg.has_edge_named(v, w, Rel::Actuates)]
                    vcg.has_edge_named(v, w, Rel::Actuates) <==> pair_has_action(facts@, v, w)
                &&& forall|v: Seq<char>, w: Seq<char>|
                    #![trigger vcg.has_edge_named(v, w, Rel::Senses)]
                    vcg.has_edge_named(v, w, Rel::Senses) <==> pair_has_percept(facts@, v, w)
                &&& forall|v: Seq<char>, w: Seq<char>|
                    #![trigger vcg.has_edge_named(v, w, Rel::Fake)]
                    vcg.has_edge_named(v, w, Rel::Fake) <==> unlabeled_pair(facts@, v, w) || (v
                        == root_name() && fact_node(facts@, w) && !fact_has_incoming(facts@, w))
                &&& forall|v: Seq<char>, w: Seq<char>, l: Seq<char>|
                    #![trigger vcg.has_label_named(v, w, Rel::Actuates, l)]
                    vcg.has_label_named(v, w, Rel::Actuates, l) <==> pair_action_label(
                        facts@,
                        v,
                        w,
                        l,
                    )
                &&& forall|v: Seq<char>, w: Seq<char>, l: Seq<char>|
                    #![trigger vcg.has_label_named(v, w, Rel::Senses, l)]
                    vcg.has_label_named(v, w, Rel::Senses, l) <==> pair_percept_label(
                        facts@,
                        v,
                        w,
                        l,
                    )
                &&& forall|v: Seq<char>, w: Seq<char>, l: Seq<char>|
                    #![trigger vcg.has_label_named(v, w, Rel::Fake, l)]
                    vcg.has_label_named(v, w, Rel::Fake, l) <==> (l == fake_label()
                        && unlabeled_pair(facts@, v, w))
                &&& forall|i: int|
                    0 <= i < vcg.nodes@.len() && i != vcg.root ==> (
                    #[trigger] vcg.vert_node_labels@[i])@ == vcg.nodes@[i]@
                &&& vcg.vert_node_labels@[vcg.root as int]@ =~= Seq::<char>::empty()
            },
            Err(_) => false,
        },
{
    let mut nodes: Vec<String> = Vec::new();
    let mut edges: Vec<VcgEdge> = Vec::new();
    let mut rows: Vec<EdgeLabelRow> = Vec::new();
    let mut pairs: Vec<(usize, usize)> = Vec::new();
    let mut fi: usize = 0;
    while fi < facts.len()
        invariant
            forall|x: int| 0 <= x < facts@.len() ==> (#[trigger] facts@[x]).path@.len() >= 1,
            fi <= facts@.len(),
            nodes_distinct(nodes@),
            edges_valid(edges@, nodes@.len() as int),
            rows_valid(rows@, nodes@.len() as int),
            pairs_valid(pairs@, nodes@.len() as int),
            forall|x: Seq<char>|
                #![trigger has_name(nodes@, x)]
                has_name(nodes@, x) <==> fact_node(facts@.take(fi as int), x),
            forall|v: Seq<char>, w: Seq<char>, rl: Rel|
                #![trigger edges_have(edges@, nodes@, v, w, rl)]
                edges_have(edges@, nodes@, v, w, rl) <==> (rl == Rel::Actuates
                    && pair_has_action(facts@.take(fi as int), v, w)) || (rl == Rel::Senses
                    && pair_has_percept(facts@.take(fi as int), v, w)),
            forall|v: Seq<char>, w: Seq<char>, rl: Rel, l: Seq<char>|
                #![trigger rows_have(rows@, nodes@, v, w, rl, l)]
                rows_have(rows@, nodes@, v, w, rl, l) <==> (rl == Rel::Actuates
                    && pair_action_label(facts@.take(fi as int), v, w, l)) || (rl == Rel::Senses
                    && pair_percept_label(facts@.take(fi as int), v, w, l)),
            forall|v: Seq<char>, w: Seq<char>|
                #![trigger pair_in(pairs@, nodes@, v, w)]
                pair_in(pairs@, nodes@, v, w) <==> pair_adjacent(facts@.take(fi as int), v, w),
        decreases facts@.len() - fi,
    {
        let ghost fii = fi as int;
        let ghost nodes1 = nodes@;
        let ghost edges1 = edges@;
        let ghost rows1 = rows@;
        let ghost pairs1 = pairs@;
        process_fact(&mut nodes, &mut edges, &mut rows, &mut pairs, &facts[fi]);
        proof {
            let pref = facts@.take(fii);
            let pref1 = facts@.take(fii + 1);
            assert(pref1[fii] == facts@[fii]);
            assert forall|x: int| 0 <= x < fii implies pref1[x] == pref[x] by {}
            assert forall|x: Seq<char>|
                has_name(nodes@, x) <==> fact_node(pref1, x) by {
                if has_name(nodes@, x) {
                    assert(has_name(nodes1, x) || path_has_name(facts@[fii].path@, x));
                    if has_name(nodes1, x) {
                        let y = choose|y: int| 0 <= y < pref.len() && path_has_name((#[trigger] pref[y]).path@, x);
                        assert(pref1[y] == pref[y]);
                        assert(fact_node(pref1, x));
                    } else {
                        assert(path_has_name(pref1[fii].path@, x));
                        assert(fact_node(pref1, x));
                    }
                }
                if fact_node(pref1, x) {
                    let y = choose|y: int| 0 <= y < pref1.len() && path_has_name((#[trigger] pref1[y]).path@, x);
                    if y < fii {
                        assert(pref[y] == pref1[y]);
                        assert(fact_node(pref, x));
                        assert(has_name(nodes1, x));
                    } else {
                        assert(pref1[y] == facts@[fii]);
                    }
                    assert(has_name(nodes@, x));
                }
            }
            assert forall|v: Seq<char>, w: Seq<char>, rl: Rel|
                edges_have(edges@, nodes@, v, w, rl) <==> (rl == Rel::Actuates
                    && pair_has_action(pref1, v, w)) || (rl == Rel::Senses && pair_has_percept(
                    pref1,
                    v,
                    w,
                )) by {
                if pair_has_action(pref, v, w) {
                    let y = choose|y: int| 0 <= y < pref.len() && fact_has_action(#[trigger] pref[y], v, w);
                    assert(pref1[y] == pref[y]);
                    assert(pair_has_action(pref1, v, w));
                }
                if pair_has_percept(pref, v, w) {
                    let y = choose|y: int| 0 <= y < pref.len() && fact_has_percept(#[trigger] pref[y], v, w);
                    assert(pref1[y] == pref[y]);
                    assert(pair_has_percept(pref1, v, w));
                }
                if pair_has_action(pref1, v, w) && !pair_has_action(pref, v, w) {
                    let y = choose|y: int| 0 <= y < pref1.len() && fact_has_action(#[trigger] pref1[y], v, w);
                    if y < fii {
                        assert(pref[y] == pref1[y]);
                        assert(false);
                    }
                    assert(pref1[y] == facts@[fii]);
                    assert(fact_has_action(facts@[fii], v, w));
                }
                if pair_has_percept(pref1, v, w) && !pair_has_percept(pref, v, w) {
                    let y = choose|y: int| 0 <= y < pref1.len() && fact_has_percept(#[trigger] pref1[y], v, w);
                    if y < fii {
                        assert(pref[y] == pref1[y]);
                        assert(false);
                    }
                    assert(pref1[y] == facts@[fii]);
                    assert(fact_has_percept(facts@[fii], v, w));
                }
                assert(edges_have(edges@, nodes@, v, w, rl) <==> edges_have(
                    edges1,
                    nodes1,
                    v,
                    w,
                    rl,
                ) || (rl == Rel::Actuates && fact_has_action(facts@[fii], v, w)) || (rl
                    == Rel::Senses && fact_has_percept(facts@[fii], v, w)));
            }
            assert forall|v: Seq<char>, w: Seq<char>, rl: Rel, l: Seq<char>|
                rows_have(rows@, nodes@, v, w, rl, l) <==> (rl == Rel::Actuates
                    && pair_action_label(pref1, v, w, l)) || (rl == Rel::Senses
                    && pair_percept_label(pref1, v, w, l)) by {
                if pair_action_label(pref, v, w, l) {
                    let y = choose|y: int| 0 <= y < pref.len() && fact_action_label(#[trigger] pref[y], v, w, l);
                    assert(pref1[y] == pref[y]);
                    assert(pair_action_label(pref1, v, w, l));
                }
                if pair_percept_label(pref, v, w, l) {
                    let y = choose|y: int| 0 <= y < pref.len() && fact_percept_label(#[trigger] pref[y], v, w, l);
                    assert(pref1[y] == pref[y]);
                    assert(pair_percept_label(pref1, v, w, l));
                }
                if pair_action_label(pref1, v, w, l) && !pair_action_label(pref, v, w, l) {
                    let y = choose|y: int| 0 <= y < pref1.len() && fact_action_label(#[trigger] pref1[y], v, w, l);
                    if y < fii {
                        assert(pref[y] == pref1[y]);
                        assert(false);
                    }
                    assert(pref1[y] == facts@[fii]);
                }
                if pair_percept_label(pref1, v, w, l) && !pair_percept_label(pref, v, w, l) {
                    let y = choose|y: int| 0 <= y < pref1.len() && fact_percept_label(#[trigger] pref1[y], v, w, l);
                    if y < fii {
                        assert(pref[y] == pref1[y]);
                        assert(false);
                    }
                    assert(pref1[y] == facts@[fii]);
                }
                assert(rows_have(rows@, nodes@, v, w, rl, l) <==> rows_have(
                    rows1,
                    nodes1,
                    v,
                    w,
                    rl,
                    l,
                ) || (rl == Rel::Actuates && fact_action_label(facts@[fii], v, w, l)) || (rl
                    == Rel::Senses && fact_percept_label(facts@[fii], v, w, l)));
            }
            assert forall|v: Seq<char>, w: Seq<char>|
                pair_in(pairs@, nodes@, v, w) <==> pair_adjacent(pref1, v, w) by {
                if pair_adjacent(pref, v, w) {
                    let y = choose|y: int| 0 <= y < pref.len() && fact_pair(#[trigger] pref[y], v, w);
                    assert(pref1[y] == pref[y]);
                    assert(pair_adjacent(pref1, v, w));
                }
                if pair_adjacent(pref1, v, w) && !pair_adjacent(pref, v, w) {
                    let y = choose|y: int| 0 <= y < pref1.len() && fact_pair(#[trigger] pref1[y], v, w);
                    if y < fii {
                        assert(pref[y] == pref1[y]);
                        assert(false);
                    }
                    assert(pref1[y] == facts@[fii]);
                }
                assert(pair_in(pairs@, nodes@, v, w) <==> pair_in(pairs1, nodes1, v, w)
                    || fact_pair(facts@[fii], v, w));
            }
        }
        fi = fi + 1;
    }
    proof {
        assert(facts@.take(facts@.len() as int) =~= facts@);
    }
    // Fake pass: a segment that yielded no labeled edge gets one fake edge.
    let ghost edges_f = edges@;
    let mut p: usize = 0;
    while p < pairs.len()
        invariant
            nodes_distinct(nodes@),
            edges_valid(edges@, nodes@.len() as int),
            rows_valid(rows@, nodes@.len() as int),
            pairs_valid(pairs@, nodes@.len() as int),
            p <= pairs@.len(),
            forall|x: Seq<char>|
                #![trigger has_name(nodes@, x)]
                has_name(nodes@, x) <==> fact_node(facts@, x),
            forall|v: Seq<char>, w: Seq<char>|
                #![trigger pair_in(pairs@, nodes@, v, w)]
                pair_in(pairs@, nodes@, v, w) <==> pair_adjacent(facts@, v, w),
            forall|v: Seq<char>, w: Seq<char>, rl: Rel|
                #![trigger edges_have(edges@, nodes@, v, w, rl)]
                edges_have(edges@, nodes@, v, w, rl) <==> (rl == Rel::Actuates
                    && pair_has_action(facts@, v, w)) || (rl == Rel::Senses && pair_has_percept(
                    facts@,
                    v,
                    w,
                )) || (rl == Rel::Fake && exists|q: int|
                    0 <= q < p && nodes@[(#[trigger] pairs@[q]).0 as int]@ == v
                        && nodes@[pairs@[q].1 as int]@ == w && unlabeled_pair(facts@, v, w)),
            forall|v: Seq<char>, w: Seq<char>, rl: Rel, l: Seq<char>|
                #![trigger rows_have(rows@, nodes@, v, w, rl, l)]
                rows_have(rows@, nodes@, v, w, rl, l) <==> (rl == Rel::Actuates
                    && pair_action_label(facts@, v, w, l)) || (rl == Rel::Senses
                    && pair_percept_label(facts@, v, w, l)) || (rl == Rel::Fake && l
                    == fake_label() && edges_have(edges@, nodes@, v, w, Rel::Fake)),
        decreases pairs@.len() - p,
    {
        let ghost pp = p as int;
        let (a, b) = pairs[p];
        let live = has_live_edge(&edges, a, b);
        proof {
            let av = nodes@[a as int]@;
            let bv = nodes@[b as int]@;
            assert(pair_in(pairs@, nodes@, av, bv));
            assert(pair_adjacent(facts@, av, bv));
            if live {
                let e = choose|e: int|
                    0 <= e < edges@.len() && (#[trigger] edges@[e]).src == a && edges@[e].dst
                        == b && edges@[e].rel != Rel::Fake;
                assert(edges_have(edges@, nodes@, av, bv, edges@[e].rel));
                assert(pair_has_action(facts@, av, bv) || pair_has_percept(facts@, av, bv));
            } else {
                if pair_has_action(facts@, av, bv) {
                    assert(edges_have(edges@, nodes@, av, bv, Rel::Actuates));
                    let e = choose|e: int|
                        0 <= e < edges@.len() && (#[trigger] edges@[e]).rel == Rel::Actuates
                            && edges@[e].src < nodes@.len() && edges@[e].dst < nodes@.len()
                            && nodes@[edges@[e].src as int]@ == av && nodes@[edges@[e].dst
                            as int]@ == bv;
                    lemma_name_id(nodes@, edges@[e].src as int, a as int);
                    lemma_name_id(nodes@, edges@[e].dst as int, b as int);
                    assert(false);
                }
                if pair_has_percept(facts@, av, bv) {
                    assert(edges_have(edges@, nodes@, av, bv, Rel::Senses));
                    let e = choose|e: int|
                        0 <= e < edges@.len() && (#[trigger] edges@[e]).rel == Rel::Senses
                            && edges@[e].src < nodes@.len() && edges@[e].dst < nodes@.len()
                            && nodes@[edges@[e].src as int]@ == av && nodes@[edges@[e].dst
                            as int]@ == bv;
                    lemma_name_id(nodes@, edges@[e].src as int, a as int);
                    lemma_name_id(nodes@, edges@[e].dst as int, b as int);
                    assert(false);
                }
                assert(unlabeled_pair(facts@, av, bv));
            }
        }
        if !live {
            let ghost edges_pre = edges@;
            let ghost rows_pre = rows@;
            let e = VcgEdge { src: a, dst: b, rel: Rel::Fake };
            edges.push(e);
            let q: String = "?".to_owned();
            record_label(&mut rows, &nodes, a, b, Rel::Fake, q);
            proof {
                assert(edges@ =~= edges_pre.push(e));
                lemma_edges_push(edges_pre, nodes@, e);
                let av = nodes@[a as int]@;
                let bv = nodes@[b as int]@;
                assert forall|v: Seq<char>, w: Seq<char>, rl: Rel|
                    edges_have(edges@, nodes@, v, w, rl) <==> (rl == Rel::Actuates
                        && pair_has_action(facts@, v, w)) || (rl == Rel::Senses
                        && pair_has_percept(facts@, v, w)) || (rl == Rel::Fake && exists|q: int|
                        0 <= q < pp + 1 && nodes@[(#[trigger] pairs@[q]).0 as int]@ == v
                            && nodes@[pairs@[q].1 as int]@ == w && unlabeled_pair(
                            facts@,
                            v,
                            w,
                        )) by {
                    assert(edges_have(edges@, nodes@, v, w, rl) == (edges_have(
                        edges_pre,
                        nodes@,
                        v,
                        w,
                        rl,
                    ) || (v == av && w == bv && rl == Rel::Fake)));
                    if v == av && w == bv && rl == Rel::Fake {
                        assert(nodes@[(pairs@[pp]).0 as int]@ == v);
                        assert(unlabeled_pair(facts@, v, w));
                    }
                    if rl == Rel::Fake && exists|q: int|
                        0 <= q < pp && nodes@[(#[trigger] pairs@[q]).0 as int]@ == v
                            && nodes@[pairs@[q].1 as int]@ == w && unlabeled_pair(
                            facts@,
                            v,
                            w,
                        ) {
                        assert(edges_have(edges_pre, nodes@, v, w, rl));
                    }
                }
                assert forall|v: Seq<char>, w: Seq<char>, rl: Rel, l: Seq<char>|
                    rows_have(rows@, nodes@, v, w, rl, l) <==> (rl == Rel::Actuates
                        && pair_action_label(facts@, v, w, l)) || (rl == Rel::Senses
                        && pair_percept_label(facts@, v, w, l)) || (rl == Rel::Fake && l
                        == fake_label() && edges_have(edges@, nodes@, v, w, Rel::Fake)) by {
                    assert(rows_have(rows@, nodes@, v, w, rl, l) == (rows_have(
                        rows_pre,
                        nodes@,
                        v,
                        w,
                        rl,
                        l,
                    ) || (v == av && w == bv && rl == Rel::Fake && l == fake_label())));
                    if v == av && w == bv && rl == Rel::Fake {
                        assert(edges_have(edges@, nodes@, v, w, Rel::Fake));
                    }
                }
            }
        } else {
            proof {
                assert forall|v: Seq<char>, w: Seq<char>, rl: Rel|
                    edges_have(edges@, nodes@, v, w, rl) <==> (rl == Rel::Actuates
                        && pair_has_action(facts@, v, w)) || (rl == Rel::Senses
                        && pair_has_percept(facts@, v, w)) || (rl == Rel::Fake && exists|q: int|
                        0 <= q < pp + 1 && nodes@[(#[trigger] pairs@[q]).0 as int]@ == v
                            && nodes@[pairs@[q].1 as int]@ == w && unlabeled_pair(
                            facts@,
                            v,
                            w,
                        )) by {
                    if rl == Rel::Fake && exists|q: int|
                        0 <= q < pp + 1 && nodes@[(#[trigger] pairs@[q]).0 as int]@ == v
                            && nodes@[pairs@[q].1 as int]@ == w && unlabeled_pair(
                            facts@,
                            v,
                            w,
                        ) {
                        let q = choose|q: int|
                            0 <= q < pp + 1 && nodes@[(#[trigger] pairs@[q]).0 as int]@ == v
                                && nodes@[pairs@[q].1 as int]@ == w && unlabeled_pair(
                                facts@,
                                v,
                                w,
                            );
                        if q == pp {
                            lemma_name_id(nodes@, pairs@[q].0 as int, a as int);
                            lemma_name_id(nodes@, pairs@[q].1 as int, b as int);
                            assert(false);
                        }
                    }
                }
            }
        }
        p = p + 1;
    }
    // Root pass: collect the sources, then bind them all to a fresh root.
    let mut ext: Vec<usize> = Vec::new();
    let mut w: usize = 0;
    while w < nodes.len()
        invariant
            w <= nodes@.len(),
            forall|i: int|
                0 <= i < ext@.len() ==> (#[trigger] ext@[i]) < nodes@.len() && (ext@[i] as int)
                    < w && !id_has_incoming(edges@, ext@[i] as int),
            forall|y: int|
                0 <= y < w && !(#[trigger] id_has_incoming(edges@, y)) ==> id_in(ext@, y),
        decreases nodes@.len() - w,
    {
        let ghost ext_pre = ext@;
        if !has_incoming_edge(&edges, w) {
            ext.push(w);
            proof {
                assert(ext@.last() == w);
                assert forall|y: int|
                    0 <= y < w + 1 && !(#[trigger] id_has_incoming(edges@, y)) implies id_in(
                    ext@,
                    y,
                ) by {
                    if y < w {
                        let i = choose|i: int| 0 <= i < ext_pre.len() && (#[trigger] ext_pre[i]) == y;
                        assert(ext@[i] == y);
                    } else {
                        assert(ext@[ext_pre.len() as int] == w);
                    }
                }
            }
        } else {
            proof {
                assert forall|y: int|
                    0 <= y < w + 1 && !(#[trigger] id_has_incoming(edges@, y)) implies id_in(
                    ext@,
                    y,
                ) by {
                    if y < w {
                        let i = choose|i: int| 0 <= i < ext_pre.len() && (#[trigger] ext_pre[i]) == y;
                        assert(ext@[i] == y);
                    }
                }
            }
        }
        w = w + 1;
    }
    let root_string: String = "root".to_owned();
    let ghost nodes_pre_root = nodes@;
    let root = intern(&mut nodes, &root_string);
    proof {
        // A fact may already name the root; intern then reuses its id, and
        // otherwise appends a fresh one.
        if forall|j: int|
            0 <= j < nodes_pre_root.len() ==> (#[trigger] nodes_pre_root[j])@ != root_string@ {
            assert(root == nodes_pre_root.len());
            assert(nodes@.len() == nodes_pre_root.len() + 1);
            assert forall|a: int, b: int|
                0 <= a < b < nodes@.len() implies (#[trigger] nodes@[a])@ != (
            #[trigger] nodes@[b])@ by {
                if b < nodes_pre_root.len() {
                    assert(nodes@[a] == nodes_pre_root[a] && nodes@[b] == nodes_pre_root[b]);
                } else {
                    assert(nodes@[b]@ == root_name());
                    assert(nodes@[a] == nodes_pre_root[a]);
                    assert(nodes_pre_root[a]@ != root_string@);
                }
            }
        } else {
            assert(exists|j: int|
                0 <= j < nodes_pre_root.len() && (#[trigger] nodes_pre_root[j])@ == root_string@);
            assert(nodes@ =~= nodes_pre_root);
        }
        assert(nodes_distinct(nodes@));
        assert(nodes@.len() <= nodes_pre_root.len() + 1);
        assert forall|y: int|
            nodes_pre_root.len() <= y < nodes@.len() implies (#[trigger] nodes@[y])@
                == root_name() by {
            assert(y == root);
        }
        lemma_edges_nodes_grow(edges@, nodes_pre_root, nodes@);
        lemma_rows_nodes_grow(rows@, nodes_pre_root, nodes@);
    }
    let ghost edges_r = edges@;
    let ghost nodes_f = nodes_pre_root;
    proof {
        // Incoming edges by id match incoming segments by name.
        assert forall|y: int| 0 <= y < nodes_f.len() implies (id_has_incoming(edges_r, y)
            <==> fact_has_incoming(facts@, nodes_f[y]@)) by {
            let wy = nodes_f[y]@;
            if id_has_incoming(edges_r, y) {
                let e = choose|e: int|
                    0 <= e < edges_r.len() && (#[trigger] edges_r[e]).dst == y;
                let vv = nodes_f[edges_r[e].src as int]@;
                assert(edges_have(edges_r, nodes_f, vv, wy, edges_r[e].rel));
                if edges_r[e].rel == Rel::Actuates {
                    lemma_action_adjacent(facts@, vv, wy);
                } else if edges_r[e].rel == Rel::Senses {
                    lemma_percept_adjacent(facts@, vv, wy);
                } else {
                    assert(edges_r[e].rel == Rel::Fake);
                    assert(unlabeled_pair(facts@, vv, wy));
                }
                assert(pair_adjacent(facts@, vv, wy));
                assert(fact_has_incoming(facts@, wy));
            }
            if fact_has_incoming(facts@, wy) {
                let vv = choose|vv: Seq<char>| pair_adjacent(facts@, vv, wy);
                if pair_has_action(facts@, vv, wy) {
                    assert(edges_have(edges_r, nodes_f, vv, wy, Rel::Actuates));
                } else if pair_has_percept(facts@, vv, wy) {
                    assert(edges_have(edges_r, nodes_f, vv, wy, Rel::Senses));
                } else {
                    assert(unlabeled_pair(facts@, vv, wy));
                    assert(pair_in(pairs@, nodes_f, vv, wy));
                    let q = choose|q: int|
                        0 <= q < pairs@.len() && (#[trigger] pairs@[q]).0 < nodes_f.len()
                            && pairs@[q].1 < nodes_f.len() && nodes_f[pairs@[q].0 as int]@ == vv
                            && nodes_f[pairs@[q].1 as int]@ == wy;
                    assert(edges_have(edges_r, nodes_f, vv, wy, Rel::Fake));
                }
                let rl = choose|rl: Rel| edges_have(edges_r, nodes_f, vv, wy, rl);
                let e = choose|e: int|
                    0 <= e < edges_r.len() && (#[trigger] edges_r[e]).rel == rl && edges_r[e].src
                        < nodes_f.len() && edges_r[e].dst < nodes_f.len()
                        && nodes_f[edges_r[e].src as int]@ == vv && nodes_f[edges_r[e].dst
                        as int]@ == wy;
                lemma_name_id(nodes_f, edges_r[e].dst as int, y);
                assert(id_has_incoming(edges_r, y));
            }
        }
    }
    // Bind the root to every source.
    let mut i: usize = 0;
    while i < ext.len()
        invariant
            nodes_distinct(nodes@),
            root < nodes@.len(),
            nodes@[root as int]@ == root_name(),
            nodes_f.len() <= nodes@.len(),
            forall|x: int| 0 <= x < nodes_f.len() ==> nodes@[x] == nodes_f[x],
            edges_valid(edges_r, nodes_f.len() as int),
            edges_valid(edges@, nodes@.len() as int),
            i <= ext@.len(),
            forall|j: int|
                0 <= j < ext@.len() ==> (#[trigger] ext@[j]) < nodes_f.len(),
            forall|v: Seq<char>, w: Seq<char>, rl: Rel|
                #![trigger edges_have(edges@, nodes@, v, w, rl)]
                edges_have(edges@, nodes@, v, w, rl) <==> edges_have(edges_r, nodes@, v, w, rl)
                    || (rl == Rel::Fake && v == root_name() && exists|j: int|
                    0 <= j < i && w == nodes@[(#[trigger] ext@[j]) as int]@),
        decreases ext@.len() - i,
    {
        let ghost ii = i as int;
        let target = ext[i];
        let e = VcgEdge { src: root, dst: target, rel: Rel::Fake };
        let ghost edges_pre = edges@;
        edges.push(e);
        proof {
            assert(edges@ =~= edges_pre.push(e));
            lemma_edges_push(edges_pre, nodes@, e);
            assert forall|v: Seq<char>, w: Seq<char>, rl: Rel|
                edges_have(edges@, nodes@, v, w, rl) <==> edges_have(edges_r, nodes@, v, w, rl)
                    || (rl == Rel::Fake && v == root_name() && exists|j: int|
                    0 <= j < ii + 1 && w == nodes@[(#[trigger] ext@[j]) as int]@) by {
                assert(edges_have(edges@, nodes@, v, w, rl) == (edges_have(
                    edges_pre,
                    nodes@,
                    v,
                    w,
                    rl,
                ) || (v == nodes@[root as int]@ && w == nodes@[target as int]@ && rl
                    == Rel::Fake)));
                if v == nodes@[root as int]@ && w == nodes@[target as int]@ && rl == Rel::Fake {
                    assert(w == nodes@[(ext@[ii]) as int]@);
                }
                if rl == Rel::Fake && v == root_name() && exists|j: int|
                    0 <= j < ii && w == nodes@[(#[trigger] ext@[j]) as int]@ {
                    assert(edges_have(edges_pre, nodes@, v, w, rl));
                }
            }
        }
        i = i + 1;
    }
    // Display names: each node shows its own name; the root shows nothing.
    let mut vert_node_labels: Vec<String> = Vec::new();
    let mut li: usize = 0;
    while li < nodes.len()
        invariant
            li <= nodes@.len(),
            root < nodes@.len(),
            vert_node_labels@.len() == li,
            forall|x: int|
                0 <= x < li && x != root ==> (#[trigger] vert_node_labels@[x])@ == nodes@[x]@,
            forall|x: int|
                0 <= x < li && x == root ==> (#[trigger] vert_node_labels@[x])@ =~= Seq::<
                    char,
                >::empty(),
        decreases nodes@.len() - li,
    {
        if li == root {
            vert_node_labels.push(String::new());
        } else {
            vert_node_labels.push(nodes[li].clone());
        }
        li = li + 1;
    }
    let vcg = Vcg { nodes, edges, vert_node_labels, vert_edge_labels: rows, root };
    proof {
        let fseq = facts@;
        assert forall|x: Seq<char>|
            vcg.has_node(x) <==> fact_node(fseq, x) || x == root_name() by {
            if has_name(vcg.nodes@, x) {
                let y = choose|y: int|
                    0 <= y < vcg.nodes@.len() && (#[trigger] vcg.nodes@[y])@ == x;
                if y < nodes_f.len() {
                    assert(nodes_f[y] == vcg.nodes@[y]);
                    assert(has_name(nodes_f, x));
                } else {
                    assert(x == root_name());
                }
            }
            if fact_node(fseq, x) {
                assert(has_name(nodes_f, x));
                let y = choose|y: int|
                    0 <= y < nodes_f.len() && (#[trigger] nodes_f[y])@ == x;
                assert(vcg.nodes@[y] == nodes_f[y]);
                assert(has_name(vcg.nodes@, x));
            }
            if x == root_name() {
                assert(vcg.nodes@[vcg.root as int]@ == x);
                assert(has_name(vcg.nodes@, x));
            }
        }
        assert forall|v: Seq<char>, w: Seq<char>|
            vcg.has_edge_named(v, w, Rel::Actuates) <==> pair_has_action(fseq, v, w) by {
            assert(edges_have(vcg.edges@, vcg.nodes@, v, w, Rel::Actuates) == (edges_have(
                edges_r,
                vcg.nodes@,
                v,
                w,
                Rel::Actuates,
            )));
            assert(edges_have(edges_r, vcg.nodes@, v, w, Rel::Actuates) == edges_have(
                edges_r,
                nodes_f,
                v,
                w,
                Rel::Actuates,
            ));
        }
        assert forall|v: Seq<char>, w: Seq<char>|
            vcg.has_edge_named(v, w, Rel::Senses) <==> pair_has_percept(fseq, v, w) by {
            assert(edges_have(vcg.edges@, vcg.nodes@, v, w, Rel::Senses) == (edges_have(
                edges_r,
                vcg.nodes@,
                v,
                w,
                Rel::Senses,
            )));
            assert(edges_have(edges_r, vcg.nodes@, v, w, Rel::Senses) == edges_have(
                edges_r,
                nodes_f,
                v,
                w,
                Rel::Senses,
            ));
        }
        assert forall|v: Seq<char>, w: Seq<char>|
            #![trigger vcg.has_edge_named(v, w, Rel::Fake)]
            vcg.has_edge_named(v, w, Rel::Fake) <==> unlabeled_pair(fseq, v, w) || (v
                == root_name() && fact_node(fseq, w) && !fact_has_incoming(fseq, w)) by {
            assert(edges_have(vcg.edges@, vcg.nodes@, v, w, Rel::Fake) == (edges_have(
                edges_r,
                vcg.nodes@,
                v,
                w,
                Rel::Fake,
            ) || (v == root_name() && exists|j: int|
                0 <= j < ext@.len() && w == vcg.nodes@[(#[trigger] ext@[j]) as int]@)));
            assert(edges_have(edges_r, vcg.nodes@, v, w, Rel::Fake) == edges_have(
                edges_r,
                nodes_f,
                v,
                w,
                Rel::Fake,
            ));
            assert(edges_have(edges_r, nodes_f, v, w, Rel::Fake) == (exists|q: int|
                0 <= q < pairs@.len() && nodes_f[(#[trigger] pairs@[q]).0 as int]@ == v
                    && nodes_f[pairs@[q].1 as int]@ == w && unlabeled_pair(fseq, v, w)));
            if edges_have(edges_r, nodes_f, v, w, Rel::Fake) {
                assert(unlabeled_pair(fseq, v, w));
            }
            if unlabeled_pair(fseq, v, w) {
                assert(pair_in(pairs@, nodes_f, v, w));
                let q = choose|q: int|
                    0 <= q < pairs@.len() && (#[trigger] pairs@[q]).0 < nodes_f.len()
                        && pairs@[q].1 < nodes_f.len() && nodes_f[pairs@[q].0 as int]@ == v
                        && nodes_f[pairs@[q].1 as int]@ == w;
                assert(edges_have(edges_r, nodes_f, v, w, Rel::Fake));
            }
            if v == root_name() && exists|j: int|
                0 <= j < ext@.len() && w == vcg.nodes@[(#[trigger] ext@[j]) as int]@ {
                let j = choose|j: int|
                    0 <= j < ext@.len() && w == vcg.nodes@[(#[trigger] ext@[j]) as int]@;
                let y = ext@[j] as int;
                assert(nodes_f[y] == vcg.nodes@[y]);
                assert(has_name(nodes_f, w));
                assert(fact_node(fseq, w));
                assert(!id_has_incoming(edges_r, y));
                assert(!fact_has_incoming(fseq, w));
            }
            if v == root_name() && fact_node(fseq, w) && !fact_has_incoming(fseq, w) {
                assert(has_name(nodes_f, w));
                let y = choose|y: int|
                    0 <= y < nodes_f.len() && (#[trigger] nodes_f[y])@ == w;
                assert(0 <= y < nodes_f.len() && nodes_f[y]@ == w);
                assert(id_has_incoming(edges_r, y) <==> fact_has_incoming(facts@, nodes_f[y]@));
                assert(!id_has_incoming(edges_r, y));
                assert(id_in(ext@, y));
                let j = choose|j: int| 0 <= j < ext@.len() && (#[trigger] ext@[j]) == y;
                assert(vcg.nodes@[y] == nodes_f[y]);
                assert(w == vcg.nodes@[(ext@[j]) as int]@);
            }
        }
        assert forall|v: Seq<char>, w: Seq<char>, l: Seq<char>|
            vcg.has_label_named(v, w, Rel::Actuates, l) <==> pair_action_label(
                fseq,
                v,
                w,
                l,
            ) by {
            assert(rows_have(vcg.vert_edge_labels@, vcg.nodes@, v, w, Rel::Actuates, l)
                == rows_have(vcg.vert_edge_labels@, nodes_f, v, w, Rel::Actuates, l));
        }
        assert forall|v: Seq<char>, w: Seq<char>, l: Seq<char>|
            vcg.has_label_named(v, w, Rel::Senses, l) <==> pair_percept_label(
                fseq,
                v,
                w,
                l,
            ) by {
            assert(rows_have(vcg.vert_edge_labels@, vcg.nodes@, v, w, Rel::Senses, l)
                == rows_have(vcg.vert_edge_labels@, nodes_f, v, w, Rel::Senses, l));
        }
        assert forall|v: Seq<char>, w: Seq<char>, l: Seq<char>|
            vcg.has_label_named(v, w, Rel::Fake, l) <==> (l == fake_label() && unlabeled_pair(
                fseq,
                v,
                w,
            )) by {
            assert(rows_have(vcg.vert_edge_labels@, vcg.nodes@, v, w, Rel::Fake, l)
                == rows_have(vcg.vert_edge_labels@, nodes_f, v, w, Rel::Fake, l));
            assert(rows_have(vcg.vert_edge_labels@, nodes_f, v, w, Rel::Fake, l) == (l
                == fake_label() && edges_have(edges_r, nodes_f, v, w, Rel::Fake)));
            assert(edges_have(edges_r, nodes_f, v, w, Rel::Fake) == (exists|q: int|
                0 <= q < pairs@.len() && nodes_f[(#[trigger] pairs@[q]).0 as int]@ == v
                    && nodes_f[pairs@[q].1 as int]@ == w && unlabeled_pair(fseq, v, w)));
            if edges_have(edges_r, nodes_f, v, w, Rel::Fake) {
                assert(unlabeled_pair(fseq, v, w));
            }
            if unlabeled_pair(fseq, v, w) {
                assert(pair_in(pairs@, nodes_f, v, w));
                let q = choose|q: int|
                    0 <= q < pairs@.len() && (#[trigger] pairs@[q]).0 < nodes_f.len()
                        && pairs@[q].1 < nodes_f.len() && nodes_f[pairs@[q].0 as int]@ == v
                        && nodes_f[pairs@[q].1 as int]@ == w;
                assert(edges_have(edges_r, nodes_f, v, w, Rel::Fake));
            }
        }
    }
    Ok(vcg)
}

} // verus!
