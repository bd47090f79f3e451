//! Condensation: collapse parallel edges of the vertical constraint graph
//! into one edge per ordered node pair, carrying the sorted list of the
//! original `(src, dst, relation)` triples — one triple per parallel
//! original edge, duplicates kept.
//!
//! The condensed edges come out sorted by the byte-wise lexicographic
//! order of their endpoint names (ids break the ties no distinct names
//! produce), which later fixes the traversal order that seeds horizontal
//! positions.

use vstd::prelude::*;

use crate::error::Error;
use crate::graph::{
    graph_add_edge, graph_add_node, graph_edge_pairs, graph_new, graph_nodes, NameGraph,
};
use crate::strings::{
    bytes_of, lemma_lex_lt_asymmetric, lemma_lex_lt_trans, lemma_lex_trichotomy, lex_lt, str_lt,
};
use crate::vcg::{Rel, Vcg, VcgEdge};

verus! {

/// One condensed edge: the ordered endpoint pair and the sorted original
/// triples it stands for, one per parallel original edge.
#[derive(Clone, Debug)]
pub struct CEdge {
    pub src: usize,
    pub dst: usize,
    pub triples: Vec<(usize, usize, Rel)>,
}

/// The condensed vertical constraint graph.
#[derive(Debug)]
pub struct Cvcg {
    /// The condensed graph itself, one node per interned name and one
    /// edge per condensed edge, for the ranking stage to walk.
    pub condensed: NameGraph,
    /// The node names, indexed by id; the id spaces of the condensation
    /// and of the underlying graph agree.
    pub condensed_vxmap: Vec<String>,
    /// The condensed edges, sorted by endpoint names.
    pub cedges: Vec<CEdge>,
}

/// Strict total order on id pairs: byte-wise name order on the sources,
/// then on the targets, with the ids breaking exact byte ties.
pub open spec fn pair_lt(names: Seq<String>, p: (usize, usize), q: (usize, usize)) -> bool {
    let a0 = bytes_of(names[p.0 as int]);
    let b0 = bytes_of(names[q.0 as int]);
    let a1 = bytes_of(names[p.1 as int]);
    let b1 = bytes_of(names[q.1 as int]);
    lex_lt(a0, b0) || (a0 == b0 && (p.0 < q.0 || (p.0 == q.0 && (lex_lt(a1, b1) || (a1 == b1
        && p.1 < q.1)))))
}

/// Both ids of the pair are below `n`.
pub open spec fn pair_ids_ok(p: (usize, usize), n: int) -> bool {
    p.0 < n && p.1 < n
}

/// The pair occurs in the list.
pub open spec fn listed_pair(pairs: Seq<(usize, usize)>, a: int, b: int) -> bool {
    exists|k: int|
        0 <= k < pairs.len() && ((#[trigger] pairs[k]).0 as int) == a && (pairs[k].1 as int) == b
}

/// Relation kinds in the byte order of their names.
pub open spec fn rel_order(r: Rel) -> int {
    match r {
        Rel::Actuates => 0,
        Rel::Fake => 1,
        Rel::Senses => 2,
    }
}

/// The condensed edge records the original triple.
pub open spec fn ce_has_triple(ce: CEdge, a: int, b: int, rel: Rel) -> bool {
    exists|t: int|
        0 <= t < ce.triples@.len() && ((#[trigger] ce.triples@[t]).0 as int) == a && (
        ce.triples@[t].1 as int) == b && ce.triples@[t].2 == rel
}

/// An edge with these endpoints and this relation exists.
pub open spec fn has_id_edge(edges: Seq<VcgEdge>, a: int, b: int, rel: Rel) -> bool {
    exists|e: int|
        0 <= e < edges.len() && ((#[trigger] edges[e]).src as int) == a && (edges[e].dst as int)
            == b && edges[e].rel == rel
}

/// An edge with these endpoints exists, of any relation.
pub open spec fn has_id_pair(edges: Seq<VcgEdge>, a: int, b: int) -> bool {
    exists|e: int|
        0 <= e < edges.len() && ((#[trigger] edges[e]).src as int) == a && (edges[e].dst as int)
            == b
}

/// `pair_lt` is transitive.
proof fn lemma_pair_lt_trans(names: Seq<String>, p: (usize, usize), q: (usize, usize), r: (
    usize,
    usize,
))
    requires
        pair_lt(names, p, q),
        pair_lt(names, q, r),
    ensures
        pair_lt(names, p, r),
{
    let a0 = bytes_of(names[p.0 as int]);
    let b0 = bytes_of(names[q.0 as int]);
    let c0 = bytes_of(names[r.0 as int]);
    let a1 = bytes_of(names[p.1 as int]);
    let b1 = bytes_of(names[q.1 as int]);
    let c1 = bytes_of(names[r.1 as int]);
    if lex_lt(a0, b0) && lex_lt(b0, c0) {
        lemma_lex_lt_trans(a0, b0, c0);
    }
    if lex_lt(a1, b1) && lex_lt(b1, c1) {
        lemma_lex_lt_trans(a1, b1, c1);
    }
}

/// `pair_lt` is total: incomparable pairs are equal.
proof fn lemma_pair_lt_total(names: Seq<String>, p: (usize, usize), q: (usize, usize))
    requires
        !pair_lt(names, p, q),
        !pair_lt(names, q, p),
    ensures
        p == q,
{
    let a0 = bytes_of(names[p.0 as int]);
    let b0 = bytes_of(names[q.0 as int]);
    let a1 = bytes_of(names[p.1 as int]);
    let b1 = bytes_of(names[q.1 as int]);
    lemma_lex_trichotomy(a0, b0);
    lemma_lex_trichotomy(a1, b1);
}

/// Decide `pair_lt` on id pairs.
pub fn pair_lt_exec(names: &Vec<String>, p: (usize, usize), q: (usize, usize)) -> (r: bool)
    requires
        pair_ids_ok(p, names@.len() as int),
        pair_ids_ok(q, names@.len() as int),
    ensures
        r == pair_lt(names@, p, q),
{
    let lt0 = str_lt(names[p.0].as_str(), names[q.0].as_str());
    let gt0 = str_lt(names[q.0].as_str(), names[p.0].as_str());
    if lt0 {
        return true;
    }
    if gt0 {
        proof {
            lemma_lex_lt_asymmetric(
                bytes_of(names@[p.0 as int]),
                bytes_of(names@[q.0 as int]),
            );
        }
        return false;
    }
    proof {
        lemma_lex_trichotomy(bytes_of(names@[p.0 as int]), bytes_of(names@[q.0 as int]));
    }
    if p.0 < q.0 {
        return true;
    }
    if p.0 > q.0 {
        return false;
    }
    let lt1 = str_lt(names[p.1].as_str(), names[q.1].as_str());
    let gt1 = str_lt(names[q.1].as_str(), names[p.1].as_str());
    if lt1 {
        return true;
    }
    if gt1 {
        proof {
            lemma_lex_lt_asymmetric(
                bytes_of(names@[p.1 as int]),
                bytes_of(names@[q.1 as int]),
            );
        }
        return false;
    }
    proof {
        lemma_lex_trichotomy(bytes_of(names@[p.1 as int]), bytes_of(names@[q.1 as int]));
    }
    p.1 < q.1
}

/// The list is sorted under `pair_lt`.
pub open spec fn pairs_sorted(names: Seq<String>, pairs: Seq<(usize, usize)>) -> bool {
    forall|i: int, j: int|
        0 <= i < j < pairs.len() ==> pair_lt(names, #[trigger] pairs[i], #[trigger] pairs[j])
            || pairs[i] == pairs[j]
}

/// Insert the pair at its sorted position, returning that position.
#[verifier::rlimit(50)]
pub fn sorted_insert_pair(names: &Vec<String>, out: &mut Vec<(usize, usize)>, x: (usize, usize)) -> (pos: usize)
    requires
        pair_ids_ok(x, names@.len() as int),
        forall|k: int|
            0 <= k < old(out)@.len() ==> pair_ids_ok(#[trigger] old(out)@[k], names@.len() as int),
        pairs_sorted(names@, old(out)@),
    ensures
        final(out)@.len() == old(out)@.len() + 1,
        forall|k: int|
            0 <= k < final(out)@.len() ==> pair_ids_ok(
                #[trigger] final(out)@[k],
                names@.len() as int,
            ),
        pairs_sorted(names@, final(out)@),
        forall|a: int, b: int|
            #![trigger listed_pair(final(out)@, a, b)]
            listed_pair(final(out)@, a, b) <==> listed_pair(old(out)@, a, b) || (a == x.0 && b
                == x.1),
        pos <= old(out)@.len(),
        final(out)@ =~= old(out)@.insert(pos as int, x),
{
    let mut idx: usize = 0;
    let mut stop = false;
    while idx < out.len() && !stop
        invariant
            pair_ids_ok(x, names@.len() as int),
            forall|k: int|
                0 <= k < out@.len() ==> pair_ids_ok(#[trigger] out@[k], names@.len() as int),
            pairs_sorted(names@, out@),
            *out == *old(out),
            idx <= out@.len(),
            forall|k: int| 0 <= k < idx ==> !pair_lt(names@, x, #[trigger] out@[k]),
            stop ==> idx < out@.len() && pair_lt(names@, x, out@[idx as int]),
        decreases out@.len() - idx + (if stop { 0int } else { 1int }),
    {
        if pair_lt_exec(names, x, out[idx]) {
            stop = true;
        } else {
            idx = idx + 1;
        }
    }
    let ghost pre = out@;
    let ghost ii = idx as int;
    out.insert(idx, x);
    proof {
        assert(out@ =~= pre.insert(ii, x));
        assert forall|i: int, j: int|
            0 <= i < j < out@.len() implies pair_lt(names@, #[trigger] out@[i], #[trigger] out@[j])
            || out@[i] == out@[j] by {
            let oi: (usize, usize) = if i < ii {
                pre[i]
            } else if i == ii {
                x
            } else {
                pre[i - 1]
            };
            let oj: (usize, usize) = if j < ii {
                pre[j]
            } else if j == ii {
                x
            } else {
                pre[j - 1]
            };
            assert(out@[i] == oi);
            assert(out@[j] == oj);
            if i < ii && j == ii {
                if !pair_lt(names@, oi, x) && oi != x {
                    lemma_pair_lt_total(names@, oi, x);
                }
            } else if i == ii && j > ii {
                assert(stop);
                assert(pair_lt(names@, x, pre[ii]));
                if j - 1 == ii {
                    assert(oj == pre[ii]);
                } else {
                    if pre[ii] == pre[j - 1] {
                    } else {
                        lemma_pair_lt_trans(names@, x, pre[ii], pre[j - 1]);
                    }
                }
            } else if i < ii && j > ii {
            }
        }
        assert forall|a: int, b: int|
            listed_pair(out@, a, b) <==> listed_pair(old(out)@, a, b) || (a == x.0 && b
                == x.1) by {
            assert(pre == old(out)@);
            assert(listed_pair(old(out)@, a, b) == listed_pair(pre, a, b));
            if listed_pair(out@, a, b) {
                let k = choose|k: int|
                    0 <= k < out@.len() && ((#[trigger] out@[k]).0 as int) == a && (out@[k].1
                        as int) == b;
                if k < ii {
                    assert(pre[k] == out@[k]);
                    assert(listed_pair(pre, a, b));
                } else if k == ii {
                    assert(out@[k] == x);
                } else {
                    assert(pre[k - 1] == out@[k]);
                    assert(listed_pair(pre, a, b));
                }
            }
            if listed_pair(pre, a, b) {
                let k = choose|k: int|
                    0 <= k < pre.len() && ((#[trigger] pre[k]).0 as int) == a && (pre[k].1
                        as int) == b;
                if k < ii {
                    assert(out@[k] == pre[k]);
                    assert(listed_pair(out@, a, b));
                } else {
                    assert(out@[k + 1] == pre[k]);
                    assert(listed_pair(out@, a, b));
                }
            }
            if a == x.0 && b == x.1 {
                assert(out@[ii] == x);
                assert(listed_pair(out@, a, b));
            }
        }
    }
    idx
}

/// How many of the first `e` edges run between the endpoints with the
/// relation.
pub open spec fn edge_count(edges: Seq<VcgEdge>, a: usize, b: usize, rel: Rel, e: int) -> int
    decreases e,
{
    if e <= 0 || e > edges.len() {
        0
    } else {
        edge_count(edges, a, b, rel, e - 1) + if edges[e - 1].src == a && edges[e - 1].dst == b
            && edges[e - 1].rel == rel {
            1int
        } else {
            0int
        }
    }
}

/// How many of the first `t` triples carry the relation.
pub open spec fn triple_count(triples: Seq<(usize, usize, Rel)>, rel: Rel, t: int) -> int
    decreases t,
{
    if t <= 0 || t > triples.len() {
        0
    } else {
        triple_count(triples, rel, t - 1) + if triples[t - 1].2 == rel {
            1int
        } else {
            0int
        }
    }
}

/// Appending one triple raises its own relation's count by one and
/// leaves the other counts alone.
proof fn lemma_triple_count_push_full(s: Seq<(usize, usize, Rel)>, x: (usize, usize, Rel), rel: Rel)
    ensures
        triple_count(s.push(x), rel, s.len() as int + 1) == triple_count(s, rel, s.len() as int) + (
        if x.2 == rel {
            1int
        } else {
            0int
        }),
    decreases s.len(),
{
    assert(s.push(x)[s.len() as int] == x);
    lemma_triple_count_prefix(s, x, rel, s.len() as int);
}

proof fn lemma_triple_count_prefix(s: Seq<(usize, usize, Rel)>, x: (usize, usize, Rel), rel: Rel, t: int)
    requires
        0 <= t <= s.len(),
    ensures
        triple_count(s.push(x), rel, t) == triple_count(s, rel, t),
    decreases t,
{
    if t > 0 {
        lemma_triple_count_prefix(s, x, rel, t - 1);
        assert(s.push(x)[t - 1] == s[t - 1]);
    }
}

/// A positive count yields a witness, and a witness a positive count.
proof fn lemma_triple_count_witness(s: Seq<(usize, usize, Rel)>, rel: Rel, t: int)
    requires
        0 <= t <= s.len(),
    ensures
        triple_count(s, rel, t) > 0 ==> exists|i: int| 0 <= i < t && (#[trigger] s[i]).2 == rel,
        (exists|i: int| 0 <= i < t && (#[trigger] s[i]).2 == rel) ==> triple_count(s, rel, t)
            > 0,
        triple_count(s, rel, t) >= 0,
    decreases t,
{
    if t > 0 {
        lemma_triple_count_witness(s, rel, t - 1);
        if triple_count(s, rel, t) > 0 && triple_count(s, rel, t - 1) <= 0 {
            assert(s[t - 1].2 == rel);
        }
        if exists|i: int| 0 <= i < t && (#[trigger] s[i]).2 == rel {
            let i = choose|i: int| 0 <= i < t && (#[trigger] s[i]).2 == rel;
            if i < t - 1 {
                assert(triple_count(s, rel, t - 1) > 0);
            }
        }
    }
}

/// A positive edge count yields a witnessing edge, and a witness a
/// positive count.
proof fn lemma_edge_count_witness(edges: Seq<VcgEdge>, a: usize, b: usize, rel: Rel, e: int)
    requires
        0 <= e <= edges.len(),
    ensures
        edge_count(edges, a, b, rel, e) > 0 ==> exists|i: int|
            0 <= i < e && (#[trigger] edges[i]).src == a && edges[i].dst == b && edges[i].rel
                == rel,
        (exists|i: int|
            0 <= i < e && (#[trigger] edges[i]).src == a && edges[i].dst == b && edges[i].rel
                == rel) ==> edge_count(edges, a, b, rel, e) > 0,
        edge_count(edges, a, b, rel, e) >= 0,
    decreases e,
{
    if e > 0 {
        lemma_edge_count_witness(edges, a, b, rel, e - 1);
        if exists|i: int|
            0 <= i < e && (#[trigger] edges[i]).src == a && edges[i].dst == b && edges[i].rel
                == rel {
            let i = choose|i: int|
                0 <= i < e && (#[trigger] edges[i]).src == a && edges[i].dst == b
                    && edges[i].rel == rel;
            if i < e - 1 {
                assert(edge_count(edges, a, b, rel, e - 1) > 0);
            }
        }
    }
}

/// How many edges run between the endpoints with the relation.
fn count_id_edges(edges: &Vec<VcgEdge>, a: usize, b: usize, rel: Rel) -> (r: usize)
    ensures
        r as int == edge_count(edges@, a, b, rel, edges@.len() as int),
{
    let mut cnt: usize = 0;
    let mut e: usize = 0;
    while e < edges.len()
        invariant
            e <= edges@.len(),
            cnt <= e,
            cnt as int == edge_count(edges@, a, b, rel, e as int),
        decreases edges@.len() - e,
    {
        let ed = edges[e];
        if ed.src == a && ed.dst == b && ed.rel == rel {
            cnt = cnt + 1;
        }
        e = e + 1;
    }
    cnt
}

/// Whether an edge with these endpoints and relation exists.
fn find_id_edge(edges: &Vec<VcgEdge>, a: usize, b: usize, rel: Rel) -> (r: bool)
    ensures
        r == has_id_edge(edges@, a as int, b as int, rel),
{
    let mut e: usize = 0;
    while e < edges.len()
        invariant
            e <= edges@.len(),
            forall|k: int|
                0 <= k < e ==> !((#[trigger] edges@[k]).src == a && edges@[k].dst == b
                    && edges@[k].rel == rel),
        decreases edges@.len() - e,
    {
        let ed = edges[e];
        if ed.src == a && ed.dst == b && ed.rel == rel {
            return true;
        }
        e = e + 1;
    }
    false
}

/// Group the parallel edges of the graph: one condensed edge per ordered
/// pair of connected nodes, labeled with the sorted original triples —
/// one per parallel original edge, with as many triples of a kind as the
/// graph has such edges — the condensed edges sorted by endpoint names;
/// and the same structure loaded into a fresh graph for the ranking
/// stage.
pub fn condense(vcg: &Vcg) -> (r: Result<Cvcg, Error>)
    requires
        vcg.wf(),
        vcg.nodes@.len() < 0xffff_fffe,
        vcg.edges@.len() < 0xffff_fffe,
    ensures
        match r {
            Ok(c) => {
                &&& c.condensed_vxmap@.len() == vcg.nodes@.len()
                &&& forall|i: int|
                    0 <= i < vcg.nodes@.len() ==> (#[trigger] c.condensed_vxmap@[i])@
                        == vcg.nodes@[i]@
                &&& graph_nodes(c.condensed).len() == vcg.nodes@.len()
                &&& forall|i: int|
                    0 <= i < vcg.nodes@.len() ==> graph_nodes(c.condensed)[i] == (
                    #[trigger] vcg.nodes@[i])@
                &&& graph_edge_pairs(c.condensed).len() == c.cedges@.len()
                &&& forall|k: int|
                    0 <= k < c.cedges@.len() ==> graph_edge_pairs(c.condensed)[k] == ((
                    #[trigger] c.cedges@[k]).src as int, c.cedges@[k].dst as int)
                &&& forall|k: int|
                    0 <= k < c.cedges@.len() ==> (#[trigger] c.cedges@[k]).src
                        < vcg.nodes@.len() && c.cedges@[k].dst < vcg.nodes@.len()
                &&& forall|a: int, b: int|
                    #![trigger has_id_pair(vcg.edges@, a, b)]
                    (exists|k: int|
                        0 <= k < c.cedges@.len() && ((#[trigger] c.cedges@[k]).src as int) == a
                            && (c.cedges@[k].dst as int) == b) <==> has_id_pair(vcg.edges@, a, b)
                &&& forall|k1: int, k2: int|
                    0 <= k1 < k2 < c.cedges@.len() ==> pair_lt(
                        vcg.nodes@,
                        ((#[trigger] c.cedges@[k1]).src, c.cedges@[k1].dst),
                        ((#[trigger] c.cedges@[k2]).src, c.cedges@[k2].dst),
                    )
                &&& forall|k: int, a: int, b: int, rel: Rel|
                    0 <= k < c.cedges@.len() ==> (#[trigger] ce_has_triple(
                        c.cedges@[k],
                        a,
                        b,
                        rel,
                    ) <==> (a == c.cedges@[k].src as int && b == c.cedges@[k].dst as int
                        && has_id_edge(vcg.edges@, a, b, rel)))
                &&& forall|k: int, t1: int, t2: int|
                    0 <= k < c.cedges@.len() && 0 <= t1 < t2 < c.cedges@[k].triples@.len()
                        ==> rel_order((#[trigger] c.cedges@[k].triples@[t1]).2) <= rel_order((
                    #[trigger] c.cedges@[k].triples@[t2]).2)
                &&& forall|k: int, t: int|
                    0 <= k < c.cedges@.len() && 0 <= t < c.cedges@[k].triples@.len() ==> (
                    #[trigger] c.cedges@[k].triples@[t]).0 == c.cedges@[k].src
                        && c.cedges@[k].triples@[t].1 == c.cedges@[k].dst
                &&& forall|k: int, rel: Rel|
                    0 <= k < c.cedges@.len() ==> #[trigger] triple_count(
                        c.cedges@[k].triples@,
                        rel,
                        c.cedges@[k].triples@.len() as int,
                    ) == edge_count(
                        vcg.edges@,
                        c.cedges@[k].src,
                        c.cedges@[k].dst,
                        rel,
                        vcg.edges@.len() as int,
                    )
            },
            Err(_) => false,
        },
{
    // Collect the distinct connected pairs.
    let mut pairs: Vec<(usize, usize)> = Vec::new();
    let mut e: usize = 0;
    while e < vcg.edges.len()
        invariant
            vcg.wf(),
            e <= vcg.edges@.len(),
            forall|k: int|
                0 <= k < pairs@.len() ==> pair_ids_ok(#[trigger] pairs@[k], vcg.nodes@.len() as int),
            pairs@.len() <= e,
            forall|x: int, y: int| 0 <= x < y < pairs@.len() ==> (#[trigger] pairs@[x]) != (#[trigger] pairs@[y]),
            forall|a: int, b: int|
                #![trigger listed_pair(pairs@, a, b)]
                listed_pair(pairs@, a, b) <==> (exists|x: int|
                    0 <= x < e && ((#[trigger] vcg.edges@[x]).src as int) == a && (vcg.edges@[x].dst
                        as int) == b),
        decreases vcg.edges@.len() - e,
    {
        let ed = vcg.edges[e];
        let mut seen = false;
        let mut k: usize = 0;
        while k < pairs.len()
            invariant
                k <= pairs@.len(),
                seen == exists|x: int|
                    0 <= x < k && (#[trigger] pairs@[x]).0 == ed.src && pairs@[x].1 == ed.dst,
            decreases pairs@.len() - k,
        {
            if pairs[k].0 == ed.src && pairs[k].1 == ed.dst {
                seen = true;
            }
            k = k + 1;
        }
        let ghost pre = pairs@;
        if !seen {
            pairs.push((ed.src, ed.dst));
        }
        proof {
            if !seen {
                assert(pairs@ =~= pre.push((ed.src, ed.dst)));
                assert forall|x: int, y: int|
                    0 <= x < y < pairs@.len() implies (#[trigger] pairs@[x]) != (
                #[trigger] pairs@[y]) by {
                    if y < pre.len() {
                        assert(pairs@[x] == pre[x] && pairs@[y] == pre[y]);
                    } else {
                        assert(pairs@[y] == (ed.src, ed.dst));
                        assert(pairs@[x] == pre[x]);
                    }
                }
            }
            assert forall|a: int, b: int|
                listed_pair(pairs@, a, b) <==> (exists|x: int|
                    0 <= x < e + 1 && ((#[trigger] vcg.edges@[x]).src as int) == a
                        && (vcg.edges@[x].dst as int) == b) by {
                if listed_pair(pairs@, a, b) {
                    let k = choose|k: int|
                        0 <= k < pairs@.len() && ((#[trigger] pairs@[k]).0 as int) == a && (
                        pairs@[k].1 as int) == b;
                    if k < pre.len() {
                        assert(pre[k] == pairs@[k]);
                        assert(listed_pair(pre, a, b));
                    } else {
                        assert(pairs@[k] == (ed.src, ed.dst));
                        assert((vcg.edges@[e as int].src as int) == a);
                    }
                }
                if exists|x: int|
                    0 <= x < e + 1 && ((#[trigger] vcg.edges@[x]).src as int) == a
                        && (vcg.edges@[x].dst as int) == b {
                    let x = choose|x: int|
                        0 <= x < e + 1 && ((#[trigger] vcg.edges@[x]).src as int) == a
                            && (vcg.edges@[x].dst as int) == b;
                    if x < e {
                        assert(listed_pair(pre, a, b));
                        let k = choose|k: int|
                            0 <= k < pre.len() && ((#[trigger] pre[k]).0 as int) == a && (pre[k].1
                                as int) == b;
                        assert(pairs@[k] == pre[k]);
                        assert(listed_pair(pairs@, a, b));
                    } else {
                        if seen {
                            assert(listed_pair(pre, a, b));
                            let k = choose|k: int|
                                0 <= k < pre.len() && ((#[trigger] pre[k]).0 as int) == a && (
                                pre[k].1 as int) == b;
                            assert(pairs@[k] == pre[k]);
                            assert(listed_pair(pairs@, a, b));
                        } else {
                            assert(pairs@[pre.len() as int] == (ed.src, ed.dst));
                            assert(listed_pair(pairs@, a, b));
                        }
                    }
                }
            }
        }
        e = e + 1;
    }
    // Sort the pairs by endpoint names.
    let mut sorted: Vec<(usize, usize)> = Vec::new();
    let mut k: usize = 0;
    while k < pairs.len()
        invariant
            vcg.wf(),
            k <= pairs@.len(),
            forall|x: int|
                0 <= x < pairs@.len() ==> pair_ids_ok(#[trigger] pairs@[x], vcg.nodes@.len() as int),
            forall|x: int|
                0 <= x < sorted@.len() ==> pair_ids_ok(
                    #[trigger] sorted@[x],
                    vcg.nodes@.len() as int,
                ),
            pairs_sorted(vcg.nodes@, sorted@),
            sorted@.len() == k,
            forall|x: int, y: int| 0 <= x < y < pairs@.len() ==> (#[trigger] pairs@[x]) != (#[trigger] pairs@[y]),
            forall|x: int, y: int| 0 <= x < y < sorted@.len() ==> (#[trigger] sorted@[x]) != (#[trigger] sorted@[y]),
            forall|a: int, b: int|
                #![trigger listed_pair(sorted@, a, b)]
                listed_pair(sorted@, a, b) <==> (exists|x: int|
                    0 <= x < k && ((#[trigger] pairs@[x]).0 as int) == a && (pairs@[x].1 as int)
                        == b),
        decreases pairs@.len() - k,
    {
        let ghost pre = sorted@;
        let ghost newp = pairs@[k as int];
        proof {
            assert(!listed_pair(pre, newp.0 as int, newp.1 as int)) by {
                if listed_pair(pre, newp.0 as int, newp.1 as int) {
                    let x = choose|x: int|
                        0 <= x < k && ((#[trigger] pairs@[x]).0 as int) == newp.0 && (pairs@[x].1
                            as int) == newp.1;
                    assert(pairs@[x] == pairs@[k as int]);
                    assert(false);
                }
            }
        }
        let pos = sorted_insert_pair(&vcg.nodes, &mut sorted, pairs[k]);
        proof {
            let pi = pos as int;
            assert forall|x: int, y: int|
                0 <= x < y < sorted@.len() implies (#[trigger] sorted@[x]) != (
            #[trigger] sorted@[y]) by {
                if sorted@[x] == sorted@[y] {
                    let px: (usize, usize) = if x < pi {
                        pre[x]
                    } else if x == pi {
                        newp
                    } else {
                        pre[x - 1]
                    };
                    let py: (usize, usize) = if y < pi {
                        pre[y]
                    } else if y == pi {
                        newp
                    } else {
                        pre[y - 1]
                    };
                    assert(sorted@[x] == px);
                    assert(sorted@[y] == py);
                    if x != pi && y != pi {
                        assert(false);
                    } else if x == pi {
                        assert(py == newp);
                        assert(listed_pair(pre, newp.0 as int, newp.1 as int));
                        assert(false);
                    } else {
                        assert(px == newp);
                        assert(listed_pair(pre, newp.0 as int, newp.1 as int));
                        assert(false);
                    }
                }
            }
            assert forall|a: int, b: int|
                listed_pair(sorted@, a, b) <==> (exists|x: int|
                    0 <= x < k + 1 && ((#[trigger] pairs@[x]).0 as int) == a && (pairs@[x].1
                        as int) == b) by {
                if listed_pair(sorted@, a, b) {
                    if listed_pair(pre, a, b) {
                        let x = choose|x: int|
                            0 <= x < k && ((#[trigger] pairs@[x]).0 as int) == a && (pairs@[x].1
                                as int) == b;
                    } else {
                        assert((pairs@[k as int].0 as int) == a);
                    }
                }
                if exists|x: int|
                    0 <= x < k + 1 && ((#[trigger] pairs@[x]).0 as int) == a && (pairs@[x].1
                        as int) == b {
                    let x = choose|x: int|
                        0 <= x < k + 1 && ((#[trigger] pairs@[x]).0 as int) == a && (pairs@[x].1
                            as int) == b;
                    if x < k {
                        assert(listed_pair(pre, a, b));
                    } else {
                        assert(a == pairs@[k as int].0 && b == pairs@[k as int].1);
                    }
                }
            }
        }
        k = k + 1;
    }
    // Gather the triples of each condensed edge, in relation order.
    let mut cedges: Vec<CEdge> = Vec::new();
    let mut k: usize = 0;
    while k < sorted.len()
        invariant
            vcg.wf(),
            k <= sorted@.len(),
            forall|x: int|
                0 <= x < sorted@.len() ==> pair_ids_ok(
                    #[trigger] sorted@[x],
                    vcg.nodes@.len() as int,
                ),
            pairs_sorted(vcg.nodes@, sorted@),
            cedges@.len() == k,
            forall|x: int|
                0 <= x < k ==> ((#[trigger] cedges@[x]).src, cedges@[x].dst) == sorted@[x],
            forall|x: int, a: int, b: int, rel: Rel|
                0 <= x < k ==> (#[trigger] ce_has_triple(cedges@[x], a, b, rel) <==> (a
                    == cedges@[x].src as int && b == cedges@[x].dst as int && has_id_edge(
                    vcg.edges@,
                    a,
                    b,
                    rel,
                ))),
            forall|x: int, t1: int, t2: int|
                0 <= x < k && 0 <= t1 < t2 < cedges@[x].triples@.len() ==> rel_order((
                #[trigger] cedges@[x].triples@[t1]).2) <= rel_order((
                #[trigger] cedges@[x].triples@[t2]).2),
            forall|x: int, t: int|
                0 <= x < k && 0 <= t < cedges@[x].triples@.len() ==> (
                #[trigger] cedges@[x].triples@[t]).0 == cedges@[x].src
                    && cedges@[x].triples@[t].1 == cedges@[x].dst,
            forall|x: int, rel: Rel|
                0 <= x < k ==> #[trigger] triple_count(
                    cedges@[x].triples@,
                    rel,
                    cedges@[x].triples@.len() as int,
                ) == edge_count(
                    vcg.edges@,
                    cedges@[x].src,
                    cedges@[x].dst,
                    rel,
                    vcg.edges@.len() as int,
                ),
        decreases sorted@.len() - k,
    {
        let (a, b) = sorted[k];
        let ca = count_id_edges(&vcg.edges, a, b, Rel::Actuates);
        let cf = count_id_edges(&vcg.edges, a, b, Rel::Fake);
        let cs = count_id_edges(&vcg.edges, a, b, Rel::Senses);
        let mut triples: Vec<(usize, usize, Rel)> = Vec::new();
        let mut j: usize = 0;
        while j < ca
            invariant
                j <= ca,
                triples@.len() == j,
                triple_count(triples@, Rel::Actuates, triples@.len() as int) == j,
                triple_count(triples@, Rel::Fake, triples@.len() as int) == 0,
                triple_count(triples@, Rel::Senses, triples@.len() as int) == 0,
                forall|t: int|
                    0 <= t < triples@.len() ==> (#[trigger] triples@[t]) == (a, b, Rel::Actuates),
            decreases ca - j,
        {
            let ghost pre = triples@;
            triples.push((a, b, Rel::Actuates));
            proof {
                assert(triples@ =~= pre.push((a, b, Rel::Actuates)));
                lemma_triple_count_push_full(pre, (a, b, Rel::Actuates), Rel::Actuates);
                lemma_triple_count_push_full(pre, (a, b, Rel::Actuates), Rel::Fake);
                lemma_triple_count_push_full(pre, (a, b, Rel::Actuates), Rel::Senses);
            }
            j = j + 1;
        }
        let ghost na = triples@.len() as int;
        let mut j: usize = 0;
        while j < cf
            invariant
                j <= cf,
                na == ca as int,
                triples@.len() == na + j,
                triple_count(triples@, Rel::Actuates, triples@.len() as int) == na,
                triple_count(triples@, Rel::Fake, triples@.len() as int) == j,
                triple_count(triples@, Rel::Senses, triples@.len() as int) == 0,
                forall|t: int|
                    0 <= t < na ==> (#[trigger] triples@[t]) == (a, b, Rel::Actuates),
                forall|t: int|
                    na <= t < triples@.len() ==> (#[trigger] triples@[t]) == (a, b, Rel::Fake),
            decreases cf - j,
        {
            let ghost pre = triples@;
            triples.push((a, b, Rel::Fake));
            proof {
                assert(triples@ =~= pre.push((a, b, Rel::Fake)));
                lemma_triple_count_push_full(pre, (a, b, Rel::Fake), Rel::Actuates);
                lemma_triple_count_push_full(pre, (a, b, Rel::Fake), Rel::Fake);
                lemma_triple_count_push_full(pre, (a, b, Rel::Fake), Rel::Senses);
            }
            j = j + 1;
        }
        let ghost nf = triples@.len() as int;
        let mut j: usize = 0;
        while j < cs
            invariant
                j <= cs,
                na == ca as int,
                nf == na + cf as int,
                triples@.len() == nf + j,
                triple_count(triples@, Rel::Actuates, triples@.len() as int) == na,
                triple_count(triples@, Rel::Fake, triples@.len() as int) == cf as int,
                triple_count(triples@, Rel::Senses, triples@.len() as int) == j,
                forall|t: int|
                    0 <= t < na ==> (#[trigger] triples@[t]) == (a, b, Rel::Actuates),
                forall|t: int|
                    na <= t < nf ==> (#[trigger] triples@[t]) == (a, b, Rel::Fake),
                forall|t: int|
                    nf <= t < triples@.len() ==> (#[trigger] triples@[t]) == (a, b, Rel::Senses),
            decreases cs - j,
        {
            let ghost pre = triples@;
            triples.push((a, b, Rel::Senses));
            proof {
                assert(triples@ =~= pre.push((a, b, Rel::Senses)));
                lemma_triple_count_push_full(pre, (a, b, Rel::Senses), Rel::Actuates);
                lemma_triple_count_push_full(pre, (a, b, Rel::Senses), Rel::Fake);
                lemma_triple_count_push_full(pre, (a, b, Rel::Senses), Rel::Senses);
            }
            j = j + 1;
        }
        let ce = CEdge { src: a, dst: b, triples };
        let ghost pre = cedges@;
        cedges.push(ce);
        proof {
            let ts = cedges@.last().triples@;
            assert(cedges@.last().src == a && cedges@.last().dst == b);
            assert forall|x: int, aa: int, bb: int, rel: Rel|
                0 <= x < k + 1 implies (#[trigger] ce_has_triple(cedges@[x], aa, bb, rel) <==> (
            aa == cedges@[x].src as int && bb == cedges@[x].dst as int && has_id_edge(
                vcg.edges@,
                aa,
                bb,
                rel,
            ))) by {
                if x < k {
                    assert(cedges@[x] == pre[x]);
                    assert(ce_has_triple(pre[x], aa, bb, rel) <==> (aa == pre[x].src as int && bb
                        == pre[x].dst as int && has_id_edge(vcg.edges@, aa, bb, rel)));
                } else {
                    assert(cedges@[x] == cedges@.last());
                    lemma_triple_count_witness(ts, rel, ts.len() as int);
                    lemma_edge_count_witness(vcg.edges@, a, b, rel, vcg.edges@.len() as int);
                    if ce_has_triple(cedges@[x], aa, bb, rel) {
                        let t = choose|t: int|
                            0 <= t < ts.len() && ((#[trigger] ts[t]).0 as int) == aa && (ts[t].1
                                as int) == bb && ts[t].2 == rel;
                        assert(ts[t] == (a, b, rel));
                        assert(triple_count(ts, rel, ts.len() as int) > 0);
                        assert(edge_count(vcg.edges@, a, b, rel, vcg.edges@.len() as int) > 0);
                        assert(has_id_edge(vcg.edges@, aa, bb, rel));
                    }
                    if aa == a as int && bb == b as int && has_id_edge(vcg.edges@, aa, bb, rel) {
                        assert(edge_count(vcg.edges@, a, b, rel, vcg.edges@.len() as int) > 0);
                        assert(triple_count(ts, rel, ts.len() as int) > 0);
                        let t = choose|t: int| 0 <= t < ts.len() && (#[trigger] ts[t]).2 == rel;
                        assert(ts[t] == (a, b, rel));
                        assert(ce_has_triple(cedges@[x], aa, bb, rel));
                    }
                }
            }
            assert forall|x: int, t1: int, t2: int|
                0 <= x < k + 1 && 0 <= t1 < t2 < cedges@[x].triples@.len() implies rel_order((
            #[trigger] cedges@[x].triples@[t1]).2) <= rel_order((
            #[trigger] cedges@[x].triples@[t2]).2) by {
                if x < k {
                    assert(cedges@[x] == pre[x]);
                }
            }
            assert forall|x: int, t: int|
                0 <= x < k + 1 && 0 <= t < cedges@[x].triples@.len() implies (
            #[trigger] cedges@[x].triples@[t]).0 == cedges@[x].src && cedges@[x].triples@[t].1
                == cedges@[x].dst by {
                if x < k {
                    assert(cedges@[x] == pre[x]);
                }
            }
            assert forall|x: int, rel: Rel|
                0 <= x < k + 1 implies #[trigger] triple_count(
                cedges@[x].triples@,
                rel,
                cedges@[x].triples@.len() as int,
            ) == edge_count(
                vcg.edges@,
                cedges@[x].src,
                cedges@[x].dst,
                rel,
                vcg.edges@.len() as int,
            ) by {
                if x < k {
                    assert(cedges@[x] == pre[x]);
                } else {
                    assert(cedges@[x] == cedges@.last());
                    match rel {
                        Rel::Actuates => {},
                        Rel::Fake => {},
                        Rel::Senses => {},
                    }
                }
            }
        }
        k = k + 1;
    }
    // Load the condensation into a fresh graph for the ranking stage.
    let mut g = graph_new();
    let mut names: Vec<String> = Vec::new();
    let mut i: usize = 0;
    while i < vcg.nodes.len()
        invariant
            vcg.wf(),
            vcg.nodes@.len() < 0xffff_fffe,
            i <= vcg.nodes@.len(),
            names@.len() == i,
            graph_nodes(g).len() == i,
            graph_edge_pairs(g).len() == 0,
            forall|x: int| 0 <= x < i ==> graph_nodes(g)[x] == (#[trigger] vcg.nodes@[x])@,
            forall|x: int| 0 <= x < i ==> (#[trigger] names@[x])@ == vcg.nodes@[x]@,
        decreases vcg.nodes@.len() - i,
    {
        let nm = vcg.nodes[i].clone();
        names.push(vcg.nodes[i].clone());
        graph_add_node(&mut g, nm);
        i = i + 1;
    }
    let mut k: usize = 0;
    while k < cedges.len()
        invariant
            vcg.wf(),
            vcg.edges@.len() < 0xffff_fffe,
            k <= cedges@.len(),
            cedges@.len() <= vcg.edges@.len(),
            forall|x: int|
                0 <= x < cedges@.len() ==> (#[trigger] cedges@[x]).src < vcg.nodes@.len()
                    && cedges@[x].dst < vcg.nodes@.len(),
            graph_nodes(g).len() == vcg.nodes@.len(),
            forall|x: int|
                0 <= x < vcg.nodes@.len() ==> graph_nodes(g)[x] == (#[trigger] vcg.nodes@[x])@,
            graph_edge_pairs(g).len() == k,
            forall|x: int|
                0 <= x < k ==> graph_edge_pairs(g)[x] == ((#[trigger] cedges@[x]).src as int, cedges@[x].dst as int),
        decreases cedges@.len() - k,
    {
        graph_add_edge(&mut g, cedges[k].src, cedges[k].dst, String::new());
        k = k + 1;
    }
    proof {
        assert forall|k1: int, k2: int|
            0 <= k1 < k2 < cedges@.len() implies pair_lt(
            vcg.nodes@,
            ((#[trigger] cedges@[k1]).src, cedges@[k1].dst),
            ((#[trigger] cedges@[k2]).src, cedges@[k2].dst),
        ) by {
            assert((cedges@[k1].src, cedges@[k1].dst) == sorted@[k1]);
            assert((cedges@[k2].src, cedges@[k2].dst) == sorted@[k2]);
            assert(sorted@[k1] != sorted@[k2]);
        }
        assert forall|a: int, b: int|
            (exists|k: int|
                0 <= k < cedges@.len() && ((#[trigger] cedges@[k]).src as int) == a && (
                cedges@[k].dst as int) == b) <==> #[trigger] has_id_pair(vcg.edges@, a, b) by {
            if exists|k: int|
                0 <= k < cedges@.len() && ((#[trigger] cedges@[k]).src as int) == a && (
                cedges@[k].dst as int) == b {
                let k = choose|k: int|
                    0 <= k < cedges@.len() && ((#[trigger] cedges@[k]).src as int) == a && (
                    cedges@[k].dst as int) == b;
                assert((cedges@[k].src, cedges@[k].dst) == sorted@[k]);
                assert((sorted@[k].0 as int) == a && (sorted@[k].1 as int) == b);
                assert(listed_pair(sorted@, a, b));
                assert(listed_pair(pairs@, a, b));
                assert(has_id_pair(vcg.edges@, a, b));
            }
            if has_id_pair(vcg.edges@, a, b) {
                let x0 = choose|x0: int|
                    0 <= x0 < vcg.edges@.len() && ((#[trigger] vcg.edges@[x0]).src as int) == a
                        && (vcg.edges@[x0].dst as int) == b;
                assert(listed_pair(pairs@, a, b));
                assert(listed_pair(sorted@, a, b));
                let k = choose|k: int|
                    0 <= k < sorted@.len() && ((#[trigger] sorted@[k]).0 as int) == a && (
                    sorted@[k].1 as int) == b;
                assert((cedges@[k].src, cedges@[k].dst) == sorted@[k]);
                assert((cedges@[k].src as int) == a && (cedges@[k].dst as int) == b);
            }
        }
    }
    Ok(Cvcg { condensed: g, condensed_vxmap: names, cedges })
}

} // verus!
