//! Ranking: vertical ranks from longest paths.
//!
//! Every edge of the condensed graph is given cost -1 and all-pairs
//! shortest paths are computed by `petgraph`'s Floyd–Warshall; negating a
//! distance turns it into a longest-path length. Only pairs whose source
//! is a root and whose distance is not positive are kept, grouped by that
//! length: bucket `r` holds, sorted by endpoint names, the pairs whose
//! longest path from a root has exactly `r` edges.

use vstd::prelude::*;

use crate::condense::{pair_ids_ok, pair_lt, listed_pair, sorted_insert_pair};
use crate::error::{Error, RankingError};
use crate::graph::{
    floyd_warshall_const_cost, fw_dists_of, fw_errs, fw_get, fw_map, graph_node_count,
    graph_node_name, graph_nodes, id_listed, NameGraph,
};

verus! {

/// The deepest longest-path length the ranking keeps; distances further
/// down than this are treated as unreachable.
pub const MAX_RANK: i64 = 1000000;

/// The name-order on id pairs, read off the graph's node weights.
pub open spec fn graph_pair_lt(g: NameGraph, p: (usize, usize), q: (usize, usize)) -> bool {
    let a0 = vstd::utf8::encode_utf8(graph_nodes(g)[p.0 as int]);
    let b0 = vstd::utf8::encode_utf8(graph_nodes(g)[q.0 as int]);
    let a1 = vstd::utf8::encode_utf8(graph_nodes(g)[p.1 as int]);
    let b1 = vstd::utf8::encode_utf8(graph_nodes(g)[q.1 as int]);
    crate::strings::lex_lt(a0, b0) || (a0 == b0 && (p.0 < q.0 || (p.0 == q.0 && (
    crate::strings::lex_lt(a1, b1) || (a1 == b1 && p.1 < q.1)))))
}

/// The pair belongs in bucket `rk`: its source is a root and its
/// shortest-path distance under unit negative costs is exactly `-rk`.
pub open spec fn pair_ranked(g: NameGraph, roots: Seq<usize>, a: int, b: int, rk: int) -> bool {
    &&& 0 <= a < graph_nodes(g).len()
    &&& 0 <= b < graph_nodes(g).len()
    &&& id_listed(roots, a)
    &&& fw_dists_of(g, -1)[(a, b)] == -rk
    &&& 0 <= rk
}

/// Some root reaches a node along a longest path deeper than the ranking
/// can hold densely.
pub open spec fn rank_too_deep(g: NameGraph, roots: Seq<usize>) -> bool {
    exists|a: int, b: int|
        0 <= a < graph_nodes(g).len() && 0 <= b < graph_nodes(g).len() && id_listed(roots, a)
            && #[trigger] fw_dists_of(g, -1)[(a, b)] < -MAX_RANK
}

/// Rank the graph by longest paths from the given roots.
///
/// Fails with the negative-cycle error exactly when Floyd-Warshall does,
/// and with an indexing error exactly when some kept pair lies deeper
/// than [`MAX_RANK`], the deepest rank a dense bucket table can hold.
pub fn rank(dag: &NameGraph, roots: &Vec<usize>) -> (r: Result<Vec<Vec<(usize, usize)>>, Error>)
    requires
        forall|k: int| 0 <= k < roots@.len() ==> (#[trigger] roots@[k]) < graph_nodes(*dag).len(),
    ensures
        fw_errs(*dag, -1) ==> r == Err::<Vec<Vec<(usize, usize)>>, Error>(
            Error::RankingError { source: RankingError::NegativeCycleError },
        ),
        !fw_errs(*dag, -1) && rank_too_deep(*dag, roots@) ==> r == Err::<
            Vec<Vec<(usize, usize)>>,
            Error,
        >(Error::GraphDrawingError { source: crate::error::Kind::IndexingError }),
        !fw_errs(*dag, -1) && !rank_too_deep(*dag, roots@) ==> r is Ok,
        match r {
            Ok(buckets) => {
                &&& buckets@.len() <= MAX_RANK + 1
                &&& forall|rk: int, a: int, b: int|
                    0 <= rk < buckets@.len() ==> (#[trigger] listed_pair(
                        buckets@[rk]@,
                        a,
                        b,
                    ) <==> pair_ranked(*dag, roots@, a, b, rk))
                &&& forall|a: int, b: int, rk: int|
                    pair_ranked(*dag, roots@, a, b, rk) ==> rk < buckets@.len()
                &&& forall|rk: int, k1: int, k2: int|
                    0 <= rk < buckets@.len() && 0 <= k1 < k2 < buckets@[rk]@.len()
                        ==> graph_pair_lt(*dag, #[trigger] buckets@[rk]@[k1], #[trigger] buckets@[rk]@[k2])
                        || buckets@[rk]@[k1] == buckets@[rk]@[k2]
                &&& forall|rk: int, k1: int, k2: int|
                    0 <= rk < buckets@.len() && 0 <= k1 < k2 < buckets@[rk]@.len() ==> (
                    #[trigger] buckets@[rk]@[k1]) != (#[trigger] buckets@[rk]@[k2])
                &&& forall|rk: int, k: int|
                    0 <= rk < buckets@.len() && 0 <= k < buckets@[rk]@.len() ==> pair_ids_ok(
                        #[trigger] buckets@[rk]@[k],
                        graph_nodes(*dag).len() as int,
                    )
            },
            Err(e) => true,
        },
{
    let dists = match floyd_warshall_const_cost(dag, -1) {
        Ok(d) => d,
        Err(_) => {
            return Err(Error::RankingError { source: RankingError::NegativeCycleError });
        },
    };
    let n = graph_node_count(dag);
    // The node names, for sorting pairs.
    let mut names: Vec<String> = Vec::new();
    let mut x: usize = 0;
    while x < n
        invariant
            n as int == graph_nodes(*dag).len(),
            x <= n,
            names@.len() == x,
            forall|y: int| 0 <= y < x ==> (#[trigger] names@[y])@ == graph_nodes(*dag)[y],
        decreases n - x,
    {
        let nm = graph_node_name(dag, x);
        names.push(nm);
        x = x + 1;
    }
    proof {
        assert forall|p: (usize, usize), q: (usize, usize)|
            pair_ids_ok(p, n as int) && pair_ids_ok(q, n as int) implies #[trigger] pair_lt(
            names@,
            p,
            q,
        ) == graph_pair_lt(*dag, p, q) by {
            assert(names@[p.0 as int]@ == graph_nodes(*dag)[p.0 as int]);
            assert(names@[q.0 as int]@ == graph_nodes(*dag)[q.0 as int]);
            assert(names@[p.1 as int]@ == graph_nodes(*dag)[p.1 as int]);
            assert(names@[q.1 as int]@ == graph_nodes(*dag)[q.1 as int]);
        }
    }
    let mut buckets: Vec<Vec<(usize, usize)>> = Vec::new();
    let mut i: usize = 0;
    while i < n
        invariant
            n as int == graph_nodes(*dag).len(),
            names@.len() == n,
            forall|y: int| 0 <= y < n ==> (#[trigger] names@[y])@ == graph_nodes(*dag)[y],
            forall|k: int|
                0 <= k < roots@.len() ==> (#[trigger] roots@[k]) < graph_nodes(*dag).len(),
            fw_map(dists) == fw_dists_of(*dag, -1),
            forall|a: int, b: int|
                0 <= a < n && 0 <= b < n ==> #[trigger] fw_map(dists).dom().contains((a, b)),
            i <= n,
            !fw_errs(*dag, -1),
            buckets@.len() <= MAX_RANK + 1,
            forall|a: int, b: int|
                0 <= a < n && 0 <= b < n && id_listed(roots@, a) && (a < i || (a == i && b < 0))
                    ==> #[trigger] fw_dists_of(*dag, -1)[(a, b)] >= -MAX_RANK,
            forall|rk: int, a: int, b: int|
                0 <= rk < buckets@.len() ==> (#[trigger] listed_pair(buckets@[rk]@, a, b) <==> (
                pair_ranked(*dag, roots@, a, b, rk) && (a < i || (a == i && b < 0)))),
            forall|a: int, b: int, rk: int|
                pair_ranked(*dag, roots@, a, b, rk) && a < i ==> rk < buckets@.len(),
            forall|rk: int, k1: int, k2: int|
                0 <= rk < buckets@.len() && 0 <= k1 < k2 < buckets@[rk]@.len() ==> (
                #[trigger] buckets@[rk]@[k1]) != (#[trigger] buckets@[rk]@[k2]),
            forall|rk: int, k1: int, k2: int|
                0 <= rk < buckets@.len() && 0 <= k1 < k2 < buckets@[rk]@.len() ==> pair_lt(
                    names@,
                    #[trigger] buckets@[rk]@[k1],
                    #[trigger] buckets@[rk]@[k2],
                ) || buckets@[rk]@[k1] == buckets@[rk]@[k2],
            forall|rk: int, k: int|
                0 <= rk < buckets@.len() && 0 <= k < buckets@[rk]@.len() ==> pair_ids_ok(
                    #[trigger] buckets@[rk]@[k],
                    n as int,
                ),
        decreases n - i,
    {
        // Is node i a root?
        let mut is_root = false;
        let mut k: usize = 0;
        while k < roots.len()
            invariant
                k <= roots@.len(),
                is_root == exists|y: int| 0 <= y < k && ((#[trigger] roots@[y]) as int) == i,
            decreases roots@.len() - k,
        {
            if roots[k] == i {
                is_root = true;
            }
            k = k + 1;
        }
        proof {
            assert(is_root == id_listed(roots@, i as int));
        }
        let mut j: usize = 0;
        while j < n
            invariant
                n as int == graph_nodes(*dag).len(),
                names@.len() == n,
                forall|y: int| 0 <= y < n ==> (#[trigger] names@[y])@ == graph_nodes(*dag)[y],
                fw_map(dists) == fw_dists_of(*dag, -1),
                forall|a: int, b: int|
                    0 <= a < n && 0 <= b < n ==> #[trigger] fw_map(dists).dom().contains((a, b)),
                i < n,
                j <= n,
                !fw_errs(*dag, -1),
                is_root == id_listed(roots@, i as int),
                buckets@.len() <= MAX_RANK + 1,
                forall|a: int, b: int|
                    0 <= a < n && 0 <= b < n && id_listed(roots@, a) && (a < i || (a == i && b
                        < j)) ==> #[trigger] fw_dists_of(*dag, -1)[(a, b)] >= -MAX_RANK,
                forall|rk: int, a: int, b: int|
                    0 <= rk < buckets@.len() ==> (#[trigger] listed_pair(buckets@[rk]@, a, b)
                        <==> (pair_ranked(*dag, roots@, a, b, rk) && (a < i || (a == i && b
                        < j)))),
                forall|a: int, b: int, rk: int|
                    pair_ranked(*dag, roots@, a, b, rk) && (a < i || (a == i && b < j)) ==> rk
                        < buckets@.len(),
                forall|rk: int, k1: int, k2: int|
                    0 <= rk < buckets@.len() && 0 <= k1 < k2 < buckets@[rk]@.len() ==> (
                    #[trigger] buckets@[rk]@[k1]) != (#[trigger] buckets@[rk]@[k2]),
                forall|rk: int, k1: int, k2: int|
                    0 <= rk < buckets@.len() && 0 <= k1 < k2 < buckets@[rk]@.len() ==> pair_lt(
                        names@,
                        #[trigger] buckets@[rk]@[k1],
                        #[trigger] buckets@[rk]@[k2],
                    ) || buckets@[rk]@[k1] == buckets@[rk]@[k2],
                forall|rk: int, k: int|
                    0 <= rk < buckets@.len() && 0 <= k < buckets@[rk]@.len() ==> pair_ids_ok(
                        #[trigger] buckets@[rk]@[k],
                        n as int,
                    ),
            decreases n - j,
        {
            let d = fw_get(&dists, i, j);
            if is_root && d < -MAX_RANK {
                proof {
                    assert(fw_dists_of(*dag, -1)[(i as int, j as int)] < -MAX_RANK);
                    assert(rank_too_deep(*dag, roots@));
                }
                return Err(Error::GraphDrawingError { source: crate::error::Kind::IndexingError });
            }
            let keep = is_root && d <= 0;
            let ghost pre_buckets = buckets@;
            if keep {
                let rk = (-d) as usize;
                // Make room for the bucket.
                while buckets.len() <= rk
                    invariant
                        rk as int <= MAX_RANK,
                        buckets@.len() <= MAX_RANK + 1,
                        forall|rr: int|
                            pre_buckets.len() <= rr < buckets@.len() ==> (
                            #[trigger] buckets@[rr]@).len() == 0,
                        forall|rr: int|
                            0 <= rr < pre_buckets.len() && rr < buckets@.len() ==> (
                            #[trigger] buckets@[rr]) == pre_buckets[rr],
                        buckets@.len() >= pre_buckets.len(),
                    decreases MAX_RANK + 1 - buckets@.len(),
                {
                    buckets.push(Vec::new());
                }
                let ghost grown = buckets@;
                let mut tmp: Vec<(usize, usize)> = Vec::new();
                core::mem::swap(&mut tmp, &mut buckets[rk]);
                let ghost bucket_pre = tmp@;
                let pos = sorted_insert_pair(&names, &mut tmp, (i, j));
                core::mem::swap(&mut tmp, &mut buckets[rk]);
                proof {
                    let rki = rk as int;
                    let pi = pos as int;
                    assert(buckets@[rki]@.len() == bucket_pre.len() + 1);
                    assert(buckets@[rki]@ =~= bucket_pre.insert(pi, (i, j)));
                    assert forall|rr: int|
                        0 <= rr < buckets@.len() && rr != rki implies buckets@[rr]
                        == grown[rr] by {}
                    assert(pair_ranked(*dag, roots@, i as int, j as int, rki));
                    assert forall|rr: int, a: int, b: int|
                        0 <= rr < buckets@.len() implies (#[trigger] listed_pair(
                        buckets@[rr]@,
                        a,
                        b,
                    ) <==> (pair_ranked(*dag, roots@, a, b, rr) && (a < i || (a == i && b < j
                        + 1)))) by {
                        if rr != rki {
                            if rr < pre_buckets.len() {
                                assert(buckets@[rr] == pre_buckets[rr]);
                                if listed_pair(buckets@[rr]@, a, b) {
                                    assert(pair_ranked(*dag, roots@, a, b, rr));
                                    assert(!(a == i && b == j));
                                }
                                if pair_ranked(*dag, roots@, a, b, rr) && (a < i || (a == i && b
                                    < j + 1)) {
                                    if a == i && b == j {
                                        assert(rr == rki);
                                        assert(false);
                                    }
                                }
                            } else {
                                assert(buckets@[rr]@.len() == 0);
                                if pair_ranked(*dag, roots@, a, b, rr) && (a < i || (a == i && b
                                    < j + 1)) {
                                    if a == i && b == j {
                                        assert(rr == rki);
                                        assert(false);
                                    } else {
                                        assert(listed_pair(pre_buckets[rr]@, a, b) || rr
                                            >= pre_buckets.len());
                                        assert(false);
                                    }
                                }
                            }
                        } else {
                            if listed_pair(buckets@[rki]@, a, b) {
                                if a == i as int && b == j as int {
                                } else {
                                    assert(listed_pair(bucket_pre, a, b));
                                    if rki < pre_buckets.len() {
                                        assert(bucket_pre == pre_buckets[rki]@);
                                    } else {
                                        assert(bucket_pre.len() == 0);
                                        assert(false);
                                    }
                                }
                            }
                            if pair_ranked(*dag, roots@, a, b, rki) && (a < i || (a == i && b < j
                                + 1)) {
                                if a == i && b == j {
                                    assert(listed_pair(buckets@[rki]@, a, b));
                                } else {
                                    if rki < pre_buckets.len() {
                                        assert(listed_pair(pre_buckets[rki]@, a, b));
                                        assert(listed_pair(bucket_pre, a, b));
                                    } else {
                                        assert(false);
                                    }
                                    assert(listed_pair(buckets@[rki]@, a, b));
                                }
                            }
                        }
                    }
                }
                proof {
                    let rki = rk as int;
                    let pi = pos as int;
                    assert(!listed_pair(bucket_pre, i as int, j as int)) by {
                        if listed_pair(bucket_pre, i as int, j as int) {
                            if rki < pre_buckets.len() {
                                assert(bucket_pre == pre_buckets[rki]@);
                                assert(listed_pair(pre_buckets[rki]@, i as int, j as int));
                                assert(false);
                            } else {
                                assert(bucket_pre.len() == 0);
                                assert(false);
                            }
                        }
                    }
                    assert forall|rr: int, k1: int, k2: int|
                        0 <= rr < buckets@.len() && 0 <= k1 < k2 < buckets@[rr]@.len() implies (
                    #[trigger] buckets@[rr]@[k1]) != (#[trigger] buckets@[rr]@[k2]) by {
                        if rr != rki {
                            assert(buckets@[rr] == grown[rr]);
                            if rr < pre_buckets.len() {
                                assert(grown[rr] == pre_buckets[rr]);
                            } else {
                                assert(grown[rr]@.len() == 0);
                            }
                        } else {
                            if buckets@[rr]@[k1] == buckets@[rr]@[k2] {
                                let o1: (usize, usize) = if k1 < pi {
                                    bucket_pre[k1]
                                } else if k1 == pi {
                                    (i, j)
                                } else {
                                    bucket_pre[k1 - 1]
                                };
                                let o2: (usize, usize) = if k2 < pi {
                                    bucket_pre[k2]
                                } else if k2 == pi {
                                    (i, j)
                                } else {
                                    bucket_pre[k2 - 1]
                                };
                                assert(buckets@[rr]@[k1] == o1);
                                assert(buckets@[rr]@[k2] == o2);
                                if k1 != pi && k2 != pi {
                                    if rki < pre_buckets.len() {
                                        assert(bucket_pre == pre_buckets[rki]@);
                                        assert(false);
                                    } else {
                                        assert(bucket_pre.len() == 0);
                                        assert(false);
                                    }
                                } else {
                                    assert(o1 == (i, j) && o2 == (i, j));
                                    assert(listed_pair(bucket_pre, i as int, j as int));
                                    assert(false);
                                }
                            }
                        }
                    }
                }
            } else {
                proof {
                    assert forall|rr: int, a: int, b: int|
                        0 <= rr < buckets@.len() implies (#[trigger] listed_pair(
                        buckets@[rr]@,
                        a,
                        b,
                    ) <==> (pair_ranked(*dag, roots@, a, b, rr) && (a < i || (a == i && b < j
                        + 1)))) by {
                        if pair_ranked(*dag, roots@, a, b, rr) && a == i && b == j {
                            assert(id_listed(roots@, i as int));
                            assert(fw_dists_of(*dag, -1)[(a, b)] == -rr);
                            assert(d as int == -rr);
                            assert(false);
                        }
                    }
                    assert forall|a: int, b: int, rk: int|
                        pair_ranked(*dag, roots@, a, b, rk) && (a < i || (a == i && b < j
                            + 1)) implies rk < buckets@.len() by {
                        if a == i && b == j {
                            assert(d as int == -rk);
                            assert(false);
                        }
                    }
                }
            }
            j = j + 1;
        }
        i = i + 1;
    }
    proof {
        assert forall|rk: int, a: int, b: int|
            0 <= rk < buckets@.len() implies (#[trigger] listed_pair(buckets@[rk]@, a, b)
            <==> pair_ranked(*dag, roots@, a, b, rk)) by {
            if pair_ranked(*dag, roots@, a, b, rk) {
                assert(a < n);
            }
        }
        assert forall|a: int, b: int, rk: int|
            pair_ranked(*dag, roots@, a, b, rk) implies rk < buckets@.len() by {
            assert(a < n);
        }
    }
    Ok(buckets)
}

} // verus!
