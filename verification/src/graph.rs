//! Graph-theoretic helpers.
//!
//! The ranking stage stores the condensed graph in a `petgraph` graph and
//! asks `petgraph`'s Floyd–Warshall for all-pairs shortest paths. Those
//! calls cross into unverified code, so each stands behind a small trusted
//! wrapper whose contract states what the crate's source shows; the two
//! uninterpreted functions [`graph_nodes`] and [`graph_edge_pairs`] name
//! what a graph value holds, and [`fw_dists_of`] names the distance table
//! that Floyd–Warshall computes for it.

use vstd::prelude::*;

use crate::error::Error;

verus! {

#[verifier::external_type_specification]
#[verifier::external_body]
#[verifier::reject_recursive_types(N)]
#[verifier::reject_recursive_types(E)]
#[verifier::reject_recursive_types(Ty)]
#[verifier::reject_recursive_types(Ix)]
pub struct ExGraph<N, E, Ty, Ix>(petgraph::graph::Graph<N, E, Ty, Ix>);

#[verifier::external_type_specification]
#[verifier::external_body]
pub struct ExNegativeCycle(petgraph::algo::NegativeCycle);

#[verifier::external_type_specification]
#[verifier::external_body]
pub struct ExDirected(petgraph::Directed);

/// The graph type the ranking stage works on: node weights are names,
/// edge weights are unused placeholders.
pub type NameGraph = petgraph::graph::Graph<String, String, petgraph::Directed, u32>;

/// The node weights the graph holds, in index order.
pub uninterp spec fn graph_nodes(g: NameGraph) -> Seq<Seq<char>>;

/// The edges the graph holds, as (source index, target index) pairs in
/// insertion order.
pub uninterp spec fn graph_edge_pairs(g: NameGraph) -> Seq<(int, int)>;

/// Relies on Graph::new: a new graph has no nodes and no edges.
#[verifier::external_body]
pub fn graph_new() -> (g: NameGraph)
    ensures
        graph_nodes(g).len() == 0,
        graph_edge_pairs(g).len() == 0,
{
    petgraph::graph::Graph::new()
}

/// Relies on Graph::add_node: appends one node and returns its index.
#[verifier::external_body]
pub fn graph_add_node(g: &mut NameGraph, w: String) -> (ix: usize)
    requires
        graph_nodes(*old(g)).len() < 0xffff_fffe,
    ensures
        graph_nodes(*final(g)) =~= graph_nodes(*old(g)).push(w@),
        graph_edge_pairs(*final(g)) =~= graph_edge_pairs(*old(g)),
        ix as int == graph_nodes(*old(g)).len(),
{
    g.add_node(w).index()
}

/// Relies on Graph::add_edge: appends one edge between existing nodes.
#[verifier::external_body]
pub fn graph_add_edge(g: &mut NameGraph, a: usize, b: usize, w: String)
    requires
        a < graph_nodes(*old(g)).len(),
        b < graph_nodes(*old(g)).len(),
        graph_edge_pairs(*old(g)).len() < 0xffff_fffe,
    ensures
        graph_nodes(*final(g)) =~= graph_nodes(*old(g)),
        graph_edge_pairs(*final(g)) =~= graph_edge_pairs(*old(g)).push(
            (a as int, b as int),
        ),
{
    g.add_edge(
        petgraph::graph::NodeIndex::new(a),
        petgraph::graph::NodeIndex::new(b),
        w,
    );
}

/// Relies on Graph::node_count: how many nodes the graph holds.
#[verifier::external_body]
pub fn graph_node_count(g: &NameGraph) -> (n: usize)
    ensures
        n as int == graph_nodes(*g).len(),
{
    g.node_count()
}

/// Relies on Graph::node_weight: the name stored at an index.
#[verifier::external_body]
pub fn graph_node_name(g: &NameGraph, i: usize) -> (r: String)
    requires
        i < graph_nodes(*g).len(),
    ensures
        r@ == graph_nodes(*g)[i as int],
{
    g.node_weight(petgraph::graph::NodeIndex::new(i)).cloned().unwrap_or_default()
}

/// The all-pairs shortest-path distances that `floyd_warshall` computes
/// for the graph when every edge costs `cost`.
pub uninterp spec fn fw_dists_of(g: NameGraph, cost: int) -> Map<(int, int), int>;

/// Whether `floyd_warshall` fails on the graph under the constant edge
/// cost; like the distances, this depends on the graph and cost alone.
pub uninterp spec fn fw_errs(g: NameGraph, cost: int) -> bool;

/// Holds the distance table one Floyd–Warshall run returned.
#[verifier::external_body]
pub struct FwDistances {
    map: std::collections::HashMap<
        (petgraph::graph::NodeIndex, petgraph::graph::NodeIndex),
        i64,
    >,
}

/// What a distance table holds, keyed by (source index, target index).
pub uninterp spec fn fw_map(d: FwDistances) -> Map<(int, int), int>;

/// Relies on petgraph::algo::floyd_warshall with a constant edge cost: on
/// `Ok` it returns the all-pairs shortest-path distance table, with an
/// entry for every ordered pair of node indices and zero on the diagonal;
/// it returns `Err` exactly when it detects a negative cycle, which
/// depends on the graph and cost alone. The table is a function of the
/// graph and the cost alone.
#[verifier::external_body]
pub fn floyd_warshall_const_cost(g: &NameGraph, cost: i64) -> (r: Result<
    FwDistances,
    petgraph::algo::NegativeCycle,
>)
    ensures
        r is Err <==> fw_errs(*g, cost as int),
        match r {
            Ok(d) => {
                &&& fw_map(d) == fw_dists_of(*g, cost as int)
                &&& forall|i: int, j: int|
                    0 <= i < graph_nodes(*g).len() && 0 <= j < graph_nodes(*g).len()
                        ==> #[trigger] fw_map(d).dom().contains((i, j))
                &&& forall|i: int|
                    0 <= i < graph_nodes(*g).len() ==> #[trigger] fw_map(d)[(i, i)] == 0
            },
            Err(_) => true,
        },
{
    match petgraph::algo::floyd_warshall(g, |_e| cost) {
        Ok(m) => Ok(FwDistances { map: m.into_iter().collect() }),
        Err(c) => Err(c),
    }
}

/// Relies on HashMap::get: the distance stored for a pair of node indices.
#[verifier::external_body]
pub fn fw_get(d: &FwDistances, i: usize, j: usize) -> (r: i64)
    requires
        fw_map(*d).dom().contains((i as int, j as int)),
    ensures
        r as int == fw_map(*d)[(i as int, j as int)],
{
    d.map.get(
        &(petgraph::graph::NodeIndex::new(i), petgraph::graph::NodeIndex::new(j)),
    ).copied().unwrap_or(i64::MAX)
}

/// Some edge ends at id `y`.
pub open spec fn edge_hits(edges: Seq<(usize, usize)>, y: int) -> bool {
    exists|e: int| 0 <= e < edges.len() && ((#[trigger] edges[e]).1 as int) == y
}

/// The id occurs in the list.
pub open spec fn id_listed(ids: Seq<usize>, y: int) -> bool {
    exists|k: int| 0 <= k < ids.len() && ((#[trigger] ids[k]) as int) == y
}

/// The ids of the nodes no edge points at, ascending.
pub fn roots(num_nodes: usize, edges: &Vec<(usize, usize)>) -> (r: Result<Vec<usize>, Error>)
    ensures
        match r {
            Ok(ids) => {
                &&& forall|k: int|
                    0 <= k < ids@.len() ==> (#[trigger] ids@[k]) < num_nodes && !edge_hits(
                        edges@,
                        ids@[k] as int,
                    )
                &&& forall|y: int|
                    0 <= y < num_nodes && !(#[trigger] edge_hits(edges@, y)) ==> id_listed(
                        ids@,
                        y,
                    )
                &&& forall|k1: int, k2: int|
                    0 <= k1 < k2 < ids@.len() ==> (#[trigger] ids@[k1]) < (#[trigger] ids@[k2])
            },
            Err(_) => false,
        },
{
    let mut ids: Vec<usize> = Vec::new();
    let mut y: usize = 0;
    while y < num_nodes
        invariant
            y <= num_nodes,
            forall|k: int|
                0 <= k < ids@.len() ==> (#[trigger] ids@[k]) < y && !edge_hits(
                    edges@,
                    ids@[k] as int,
                ),
            forall|z: int|
                0 <= z < y && !(#[trigger] edge_hits(edges@, z)) ==> id_listed(ids@, z),
            forall|k1: int, k2: int|
                0 <= k1 < k2 < ids@.len() ==> (#[trigger] ids@[k1]) < (#[trigger] ids@[k2]),
        decreases num_nodes - y,
    {
        let mut found = false;
        let mut e: usize = 0;
        while e < edges.len()
            invariant
                e <= edges@.len(),
                found == exists|x: int|
                    0 <= x < e && ((#[trigger] edges@[x]).1 as int) == y,
            decreases edges@.len() - e,
        {
            if edges[e].1 == y {
                found = true;
            }
            e = e + 1;
        }
        proof {
            assert(found == edge_hits(edges@, y as int));
        }
        let ghost pre = ids@;
        if !found {
            ids.push(y);
            proof {
                assert(ids@.last() == y);
            }
        }
        proof {
            assert forall|z: int|
                0 <= z < y + 1 && !(#[trigger] edge_hits(edges@, z)) implies id_listed(
                ids@,
                z,
            ) by {
                if z < y {
                    let k = choose|k: int|
                        0 <= k < pre.len() && ((#[trigger] pre[k]) as int) == z;
                    assert(ids@[k] == pre[k]);
                } else {
                    assert(!found);
                    assert(ids@[pre.len() as int] == y);
                }
            }
        }
        y = y + 1;
    }
    Ok(ids)
}

} // verus!
