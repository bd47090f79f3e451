//! Placement construction: refine ranked nodes and condensed edges into
//! per-rank locations and single-rank hops.
//!
//! Every ranked node receives the horizontal position its rank bucket
//! gives it. Every condensed edge from a node at rank `vvr` to one at rank
//! `wvr` is cut into `wvr - vvr` hops; each intermediate rank receives a
//! fresh location appended after the node locations, and consecutive hops
//! chain endpoint to endpoint.

use vstd::prelude::*;

use crate::condense::{pair_ids_ok, Cvcg};
use crate::error::{Error, Kind};
use crate::index::{OriginalHorizontalRank, VerticalRank};

verus! {

/// A graphical object at a location: a node box, or one hop of an edge
/// (tagged with the rank it starts at and the edge's endpoints).
#[derive(Clone, Copy, Debug, PartialEq, Eq, Structural, Hash)]
pub enum Loc<V, E> {
    Node(V),
    Hop(VerticalRank, E, E),
}

/// A single-rank segment of a condensed edge: the rank it starts at, the
/// horizontal positions of its upper (`mhr`) and lower (`nhr`) endpoints,
/// and the enclosing edge's endpoints.
#[derive(Clone, Copy, Debug, PartialEq, Eq, Structural, Hash)]
pub struct Hop {
    pub mhr: OriginalHorizontalRank,
    pub nhr: OriginalHorizontalRank,
    pub vl: usize,
    pub wl: usize,
    pub lvl: VerticalRank,
}

/// The joint product of placement construction.
#[derive(Clone, Debug)]
pub struct Placement {
    /// Per rank, the ordered locations; a location's value equals its
    /// index within the rank.
    pub locs_by_level: Vec<Vec<OriginalHorizontalRank>>,
    /// Per rank, the hops starting there.
    pub hops_by_level: Vec<Vec<Hop>>,
    /// Per condensed edge in traversal order: the edge's endpoints and its
    /// hops as `(rank, upper position, lower position)`, rank ascending.
    pub hops_by_edge: Vec<((usize, usize), Vec<(VerticalRank, OriginalHorizontalRank, OriginalHorizontalRank)>)>,
    /// What stands at each occupied `(rank, position)`.
    pub loc_to_node: Vec<((usize, usize), Loc<usize, usize>)>,
    /// Where each object stands; the inverse of `loc_to_node`.
    pub node_to_loc: Vec<(Loc<usize, usize>, (usize, usize))>,
}

/// The location map has an entry for `(rank, position)`.
pub open spec fn has_loc_key(
    l2n: Seq<((usize, usize), Loc<usize, usize>)>,
    r: int,
    o: int,
) -> bool {
    exists|k: int|
        0 <= k < l2n.len() && ((#[trigger] l2n[k]).0.0 as int) == r && (l2n[k].0.1 as int) == o
}

/// The location map places node `x` at `(rank, position)`.
pub open spec fn has_node_loc(
    l2n: Seq<((usize, usize), Loc<usize, usize>)>,
    r: int,
    o: int,
    x: int,
) -> bool {
    exists|k: int|
        0 <= k < l2n.len() && ((#[trigger] l2n[k]).0.0 as int) == r && (l2n[k].0.1 as int) == o
            && (match l2n[k].1 {
            Loc::Node(xx) => xx as int == x,
            Loc::Hop(_, _, _) => false,
        })
}

/// The map only grows, so its entries stay present.
proof fn lemma_locmap_frame(
    pre: Seq<((usize, usize), Loc<usize, usize>)>,
    cur: Seq<((usize, usize), Loc<usize, usize>)>,
)
    requires
        cur.len() >= pre.len(),
        forall|k: int| 0 <= k < pre.len() ==> cur[k] == pre[k],
    ensures
        forall|r: int, o: int|
            #![trigger has_loc_key(cur, r, o)]
            has_loc_key(pre, r, o) ==> has_loc_key(cur, r, o),
        forall|r: int, o: int, x: int|
            #![trigger has_node_loc(cur, r, o, x)]
            has_node_loc(pre, r, o, x) ==> has_node_loc(cur, r, o, x),
{
    assert forall|r: int, o: int| has_loc_key(pre, r, o) implies has_loc_key(cur, r, o) by {
        let k = choose|k: int|
            0 <= k < pre.len() && ((#[trigger] pre[k]).0.0 as int) == r && (pre[k].0.1 as int)
                == o;
        assert(cur[k] == pre[k]);
    }
    assert forall|r: int, o: int, x: int|
        has_node_loc(pre, r, o, x) implies has_node_loc(cur, r, o, x) by {
        let k = choose|k: int|
            0 <= k < pre.len() && ((#[trigger] pre[k]).0.0 as int) == r && (pre[k].0.1 as int)
                == o && (match pre[k].1 {
                Loc::Node(xx) => xx as int == x,
                Loc::Hop(_, _, _) => false,
            });
        assert(cur[k] == pre[k]);
    }
}

/// The hop appears in the per-edge table, under its own edge and level.
pub open spec fn hop_in_edges(
    hbe: Seq<((usize, usize), Vec<(VerticalRank, OriginalHorizontalRank, OriginalHorizontalRank)>)>,
    h: Hop,
) -> bool {
    exists|k: int, t: int|
        0 <= k < hbe.len() && 0 <= t < hbe[k].1@.len() && hbe[k].0.0 == h.vl && hbe[k].0.1
            == h.wl && (#[trigger] hbe[k].1@[t]) == (h.lvl, h.mhr, h.nhr)
}

/// The edge's hop appears in the per-level table at its level.
pub open spec fn hop_in_levels(
    hbl: Seq<Vec<Hop>>,
    key: (usize, usize),
    t3: (VerticalRank, OriginalHorizontalRank, OriginalHorizontalRank),
) -> bool {
    ((t3.0).0 as int) < hbl.len() && exists|y: int|
        0 <= y < hbl[(t3.0).0 as int]@.len() && (#[trigger] hbl[(t3.0).0 as int]@[y]) == (Hop {
            mhr: t3.1,
            nhr: t3.2,
            vl: key.0,
            wl: key.1,
            lvl: t3.0,
        })
}

/// The per-level table only grows, so its hops stay present.
proof fn lemma_hbl_frame(pre: Seq<Vec<Hop>>, cur: Seq<Vec<Hop>>)
    requires
        cur.len() == pre.len(),
        forall|l: int| 0 <= l < pre.len() ==> (#[trigger] cur[l]@).len() >= pre[l]@.len(),
        forall|l: int, y: int|
            0 <= l < pre.len() && 0 <= y < pre[l]@.len() ==> (#[trigger] cur[l]@[y]) == pre[l]@[y],
    ensures
        forall|key: (usize, usize), t3: (VerticalRank, OriginalHorizontalRank, OriginalHorizontalRank)|
            #![trigger hop_in_levels(cur, key, t3)]
            hop_in_levels(pre, key, t3) ==> hop_in_levels(cur, key, t3),
{
    assert forall|key: (usize, usize), t3: (VerticalRank, OriginalHorizontalRank, OriginalHorizontalRank)|
        hop_in_levels(pre, key, t3) implies hop_in_levels(cur, key, t3) by {
        let y = choose|y: int|
            0 <= y < pre[(t3.0).0 as int]@.len() && (#[trigger] pre[(t3.0).0 as int]@[y]) == (Hop {
                mhr: t3.1,
                nhr: t3.2,
                vl: key.0,
                wl: key.1,
                lvl: t3.0,
            });
        assert(cur[(t3.0).0 as int]@[y] == pre[(t3.0).0 as int]@[y]);
    }
}

/// The per-edge table only grows, so its hops stay present.
proof fn lemma_hbe_frame(
    pre: Seq<((usize, usize), Vec<(VerticalRank, OriginalHorizontalRank, OriginalHorizontalRank)>)>,
    cur: Seq<((usize, usize), Vec<(VerticalRank, OriginalHorizontalRank, OriginalHorizontalRank)>)>,
)
    requires
        cur.len() >= pre.len(),
        forall|k: int| 0 <= k < pre.len() ==> (#[trigger] cur[k]) == pre[k],
    ensures
        forall|h: Hop|
            #![trigger hop_in_edges(cur, h)]
            hop_in_edges(pre, h) ==> hop_in_edges(cur, h),
{
    assert forall|h: Hop| hop_in_edges(pre, h) implies hop_in_edges(cur, h) by {
        let (k, t) = choose|k: int, t: int|
            0 <= k < pre.len() && 0 <= t < pre[k].1@.len() && pre[k].0.0 == h.vl && pre[k].0.1
                == h.wl && (#[trigger] pre[k].1@[t]) == (h.lvl, h.mhr, h.nhr);
        assert(cur[k] == pre[k]);
    }
}

/// The edge's hop chain is anchored at its endpoints: it starts at the
/// source's rank and position, spans exactly the ranks between the two
/// nodes, and ends at the target's position.
pub open spec fn edge_chain_anchored(
    paths: Seq<Vec<(usize, usize)>>,
    entry: ((usize, usize), Vec<(VerticalRank, OriginalHorizontalRank, OriginalHorizontalRank)>),
) -> bool {
    exists|vvr: int, vhr: int, wvr: int, whr: int|
        #![trigger target_at(paths, vvr, vhr, entry.0.0 as int), target_at(paths, wvr, whr, entry.0.1 as int)]
        target_at(paths, vvr, vhr, entry.0.0 as int) && target_at(paths, wvr, whr, entry.0.1
            as int) && vvr < wvr && entry.1@.len() == wvr - vvr && ((entry.1@[0].0).0 as int)
            == vvr && ((entry.1@[0].1).0 as int) == vhr && ((entry.1@.last().2).0 as int) == whr
}

/// The edge runs strictly downward between two ranked nodes.
pub open spec fn edge_ok(paths: Seq<Vec<(usize, usize)>>, src: int, dst: int) -> bool {
    exists|r1: int, p1: int, r2: int, p2: int|
        #![trigger target_at(paths, r1, p1, src), target_at(paths, r2, p2, dst)]
        target_at(paths, r1, p1, src) && target_at(paths, r2, p2, dst) && r1 < r2
}

/// A node entry of the location map agrees with the rank table.
pub open spec fn node_entry_ok(
    entry: ((usize, usize), Loc<usize, usize>),
    rank_of: Seq<Option<(usize, usize)>>,
) -> bool {
    match entry.1 {
        Loc::Node(x) => (x as int) < rank_of.len() && rank_of[x as int] == Some(entry.0),
        Loc::Hop(_, _, _) => true,
    }
}

/// Bucket `rk` of the ranked paths has `w` as the target of its `pos`-th
/// pair.
pub open spec fn target_at(paths: Seq<Vec<(usize, usize)>>, rk: int, pos: int, w: int) -> bool {
    0 <= rk < paths.len() && 0 <= pos < paths[rk]@.len() && ((#[trigger] paths[rk]@[pos]).1
        as int) == w
}

/// The ranked paths are clean: ids in range and every node the target of
/// at most one pair.
pub open spec fn ranks_clean(paths: Seq<Vec<(usize, usize)>>, n: int) -> bool {
    &&& forall|rk: int, k: int|
        0 <= rk < paths.len() && 0 <= k < paths[rk]@.len() ==> pair_ids_ok(
            #[trigger] paths[rk]@[k],
            n,
        )
    &&& forall|rk1: int, p1: int, rk2: int, p2: int, w: int|
        target_at(paths, rk1, p1, w) && target_at(paths, rk2, p2, w) ==> rk1 == rk2 && p1 == p2
}

impl Placement {
    /// Structural well-formedness: ranks line up, a location's value is
    /// its index, every map key is in range, and the two location maps
    /// are mutually inverse.
    pub open spec fn wf(self) -> bool {
        &&& self.locs_by_level@.len() == self.hops_by_level@.len()
        &&& forall|r: int, i: int|
            0 <= r < self.locs_by_level@.len() && 0 <= i < self.locs_by_level@[r]@.len() ==> (
            #[trigger] self.locs_by_level@[r]@[i]).0 == i
        &&& forall|k: int|
            0 <= k < self.loc_to_node@.len() ==> ((#[trigger] self.loc_to_node@[k]).0.0 as int)
                < self.locs_by_level@.len() && (self.loc_to_node@[k].0.1 as int)
                < self.locs_by_level@[self.loc_to_node@[k].0.0 as int]@.len()
        &&& forall|k1: int, k2: int|
            0 <= k1 < k2 < self.loc_to_node@.len() ==> (#[trigger] self.loc_to_node@[k1]).0 != (
            #[trigger] self.loc_to_node@[k2]).0
        &&& self.node_to_loc@.len() == self.loc_to_node@.len()
        &&& forall|k: int|
            0 <= k < self.loc_to_node@.len() ==> (#[trigger] self.node_to_loc@[k]).0
                == self.loc_to_node@[k].1 && self.node_to_loc@[k].1 == self.loc_to_node@[k].0
        &&& forall|k1: int, k2: int|
            0 <= k1 < k2 < self.node_to_loc@.len() ==> (#[trigger] self.node_to_loc@[k1]).0 != (
            #[trigger] self.node_to_loc@[k2]).0
    }

    /// The hops of edge `k` are contiguous in rank and chain endpoint to
    /// endpoint.
    pub open spec fn edge_hops_chain(self, k: int) -> bool {
        let hops = self.hops_by_edge@[k].1;
        &&& forall|t: int| 0 <= t < hops@.len() ==> ((#[trigger] hops@[t]).0.0 as int) == (
            hops@[0].0.0 as int) + t
        &&& forall|t: int|
            0 <= t && t + 1 < hops@.len() ==> ((#[trigger] hops@[t]).2).0 == (hops@[t + 1].1).0
    }

    /// Every edge's hops are contiguous and chained.
    pub open spec fn all_edges_chain(self) -> bool {
        forall|k: int| 0 <= k < self.hops_by_edge@.len() ==> (#[trigger] self.edge_hops_chain(k))
    }
}

/// What stands at `(rank, position)`, if anything.
pub fn lookup_loc(placement: &Placement, r: usize, o: usize) -> (res: Option<Loc<usize, usize>>)
    ensures
        match res {
            Some(l) => exists|k: int|
                0 <= k < placement.loc_to_node@.len() && (#[trigger] placement.loc_to_node@[k])
                    == ((r, o), l),
            None => forall|k: int|
                0 <= k < placement.loc_to_node@.len() ==> (
                #[trigger] placement.loc_to_node@[k]).0 != (r, o),
        },
{
    let mut k: usize = 0;
    while k < placement.loc_to_node.len()
        invariant
            k <= placement.loc_to_node@.len(),
            forall|x: int|
                0 <= x < k ==> (#[trigger] placement.loc_to_node@[x]).0 != (r, o),
        decreases placement.loc_to_node@.len() - k,
    {
        let entry = &placement.loc_to_node[k];
        if entry.0.0 == r && entry.0.1 == o {
            return Some(entry.1);
        }
        k = k + 1;
    }
    None
}

/// Where the object stands, if anywhere.
pub fn lookup_node(placement: &Placement, loc: &Loc<usize, usize>) -> (res: Option<(usize, usize)>)
    ensures
        match res {
            Some(p) => exists|k: int|
                0 <= k < placement.node_to_loc@.len() && (#[trigger] placement.node_to_loc@[k])
                    == (*loc, p),
            None => forall|k: int|
                0 <= k < placement.node_to_loc@.len() ==> (
                #[trigger] placement.node_to_loc@[k]).0 != *loc,
        },
{
    let mut k: usize = 0;
    while k < placement.node_to_loc.len()
        invariant
            k <= placement.node_to_loc@.len(),
            forall|x: int|
                0 <= x < k ==> (#[trigger] placement.node_to_loc@[x]).0 != *loc,
        decreases placement.node_to_loc@.len() - k,
    {
        let entry = &placement.node_to_loc[k];
        if entry.0 == *loc {
            return Some(entry.1);
        }
        k = k + 1;
    }
    None
}

/// Refine the ranked paths and the condensed edges into locations and
/// hops.
///
/// Fails with an indexing error when a condensed edge touches an unranked
/// node or does not point strictly downward; on success every edge's hops
/// are contiguous in rank and chain endpoint to endpoint, and the hop
/// list of edge `k` runs from its source's rank to just above its
/// target's rank.
#[verifier::rlimit(100)]
pub fn calculate_locs_and_hops(cvcg: &Cvcg, paths_by_rank: &Vec<Vec<(usize, usize)>>) -> (r:
    Result<Placement, Error>)
    requires
        ranks_clean(paths_by_rank@, cvcg.condensed_vxmap@.len() as int),
        forall|k: int|
            0 <= k < cvcg.cedges@.len() ==> (#[trigger] cvcg.cedges@[k]).src
                < cvcg.condensed_vxmap@.len() && cvcg.cedges@[k].dst < cvcg.condensed_vxmap@.len(),
        forall|k1: int, k2: int|
            0 <= k1 < k2 < cvcg.cedges@.len() ==> ((#[trigger] cvcg.cedges@[k1]).src, cvcg.cedges@[k1].dst) != ((#[trigger] cvcg.cedges@[k2]).src, cvcg.cedges@[k2].dst),
        paths_by_rank@.len() < usize::MAX,
        cvcg.condensed_vxmap@.len() < usize::MAX,
    ensures
        (forall|k: int|
            0 <= k < cvcg.cedges@.len() ==> edge_ok(
                paths_by_rank@,
                (#[trigger] cvcg.cedges@[k]).src as int,
                cvcg.cedges@[k].dst as int,
            )) ==> r is Ok,
        r is Ok ==> (forall|k: int|
            0 <= k < cvcg.cedges@.len() ==> edge_ok(
                paths_by_rank@,
                (#[trigger] cvcg.cedges@[k]).src as int,
                cvcg.cedges@[k].dst as int,
            )),
        match r {
            Ok(p) => {
                &&& p.wf()
                &&& p.all_edges_chain()
                &&& p.locs_by_level@.len() == paths_by_rank@.len()
                &&& p.hops_by_edge@.len() == cvcg.cedges@.len()
                &&& forall|k: int|
                    0 <= k < cvcg.cedges@.len() ==> (#[trigger] p.hops_by_edge@[k]).0 == ((
                    cvcg.cedges@[k]).src, cvcg.cedges@[k].dst)
                &&& forall|k: int|
                    0 <= k < p.hops_by_edge@.len() ==> (#[trigger] p.hops_by_edge@[k]).1@.len()
                        >= 1
                &&& forall|k: int, t: int|
                    0 <= k < p.hops_by_edge@.len() && 0 <= t < p.hops_by_edge@[k].1@.len() ==> ((
                    #[trigger] p.hops_by_edge@[k].1@[t]).0.0 as int) < p.locs_by_level@.len()
                &&& forall|k: int|
                    0 <= k < p.hops_by_edge@.len() ==> #[trigger] edge_chain_anchored(
                        paths_by_rank@,
                        p.hops_by_edge@[k],
                    )
                &&& forall|k: int, t: int|
                    0 <= k < p.hops_by_edge@.len() && 0 <= t < p.hops_by_edge@[k].1@.len() ==> ((
                    #[trigger] p.hops_by_edge@[k].1@[t]).0.0 as int) + 1 < p.locs_by_level@.len()
                        && ((p.hops_by_edge@[k].1@[t].1).0 as int) < p.locs_by_level@[(
                    p.hops_by_edge@[k].1@[t].0).0 as int]@.len() && ((p.hops_by_edge@[k].1@[t].2).0
                        as int) < p.locs_by_level@[(p.hops_by_edge@[k].1@[t].0).0 as int
                        + 1]@.len()
                &&& forall|rr: int, o: int|
                    0 <= rr < p.locs_by_level@.len() && 0 <= o < p.locs_by_level@[rr]@.len()
                        ==> #[trigger] has_loc_key(p.loc_to_node@, rr, o)
                &&& forall|rr: int, pp: int, x: int|
                    #[trigger] target_at(paths_by_rank@, rr, pp, x) ==> has_node_loc(
                        p.loc_to_node@,
                        rr,
                        pp,
                        x,
                    )
                &&& forall|l: int, y: int|
                    0 <= l < p.hops_by_level@.len() && 0 <= y < p.hops_by_level@[l]@.len() ==> ((
                    #[trigger] p.hops_by_level@[l]@[y]).lvl.0 as int) == l && hop_in_edges(
                        p.hops_by_edge@,
                        p.hops_by_level@[l]@[y],
                    )
                &&& forall|k: int, t: int|
                    0 <= k < p.hops_by_edge@.len() && 0 <= t < p.hops_by_edge@[k].1@.len()
                        ==> hop_in_levels(
                        p.hops_by_level@,
                        p.hops_by_edge@[k].0,
                        #[trigger] p.hops_by_edge@[k].1@[t],
                    )
            },
            Err(e) => e == (Error::GraphDrawingError { source: Kind::IndexingError }),
        },
{
    let n = cvcg.condensed_vxmap.len();
    // The rank and in-rank position of each node, where one is assigned.
    let mut rank_of: Vec<Option<(usize, usize)>> = Vec::new();
    let mut w: usize = 0;
    while w < n
        invariant
            w <= n,
            rank_of@.len() == w,
            forall|x: int| 0 <= x < w ==> (#[trigger] rank_of@[x]) is None,
        decreases n - w,
    {
        rank_of.push(None);
        w = w + 1;
    }
    let mut rk: usize = 0;
    while rk < paths_by_rank.len()
        invariant
            ranks_clean(paths_by_rank@, n as int),
            rank_of@.len() == n,
            rk <= paths_by_rank@.len(),
            forall|x: int|
                0 <= x < n ==> (match #[trigger] rank_of@[x] {
                    Some(rp) => target_at(paths_by_rank@, rp.0 as int, rp.1 as int, x) && (rp.0
                        as int) < rk,
                    None => forall|r2: int, p2: int|
                        r2 < rk ==> !target_at(paths_by_rank@, r2, p2, x),
                }),
        decreases paths_by_rank@.len() - rk,
    {
        let bucket = &paths_by_rank[rk];
        let mut pos: usize = 0;
        while pos < bucket.len()
            invariant
                ranks_clean(paths_by_rank@, n as int),
                rank_of@.len() == n,
                rk < paths_by_rank@.len(),
                bucket@ == paths_by_rank@[rk as int]@,
                pos <= bucket@.len(),
                forall|x: int|
                    0 <= x < n ==> (match #[trigger] rank_of@[x] {
                        Some(rp) => target_at(paths_by_rank@, rp.0 as int, rp.1 as int, x) && ((
                        rp.0 as int) < rk || (rp.0 as int == rk && (rp.1 as int) < pos)),
                        None => forall|r2: int, p2: int|
                            r2 < rk || (r2 == rk && p2 < pos) ==> !target_at(
                                paths_by_rank@,
                                r2,
                                p2,
                                x,
                            ),
                    }),
            decreases bucket@.len() - pos,
        {
            let t = bucket[pos].1;
            let ghost pre = rank_of@;
            if t < n {
                rank_of.set(t, Some((rk, pos)));
            }
            proof {
                assert(pair_ids_ok(paths_by_rank@[rk as int]@[pos as int], n as int));
                assert(t < n);
                assert(target_at(paths_by_rank@, rk as int, pos as int, t as int));
                assert forall|x: int|
                    0 <= x < n implies (match #[trigger] rank_of@[x] {
                    Some(rp) => target_at(paths_by_rank@, rp.0 as int, rp.1 as int, x) && ((rp.0
                        as int) < rk || (rp.0 as int == rk && (rp.1 as int) < pos + 1)),
                    None => forall|r2: int, p2: int|
                        r2 < rk || (r2 == rk && p2 < pos + 1) ==> !target_at(
                            paths_by_rank@,
                            r2,
                            p2,
                            x,
                        ),
                }) by {
                    if x == t {
                        assert(rank_of@[x] == Some((rk, pos)));
                    } else {
                        assert(rank_of@[x] == pre[x]);
                        match pre[x] {
                            Some(rp) => {},
                            None => {
                                assert forall|r2: int, p2: int|
                                    r2 < rk || (r2 == rk && p2 < pos + 1) implies !target_at(
                                    paths_by_rank@,
                                    r2,
                                    p2,
                                    x,
                                ) by {
                                    if r2 == rk && p2 == pos {
                                        if target_at(paths_by_rank@, r2, p2, x) {
                                            assert(x == t);
                                            assert(false);
                                        }
                                    }
                                }
                            },
                        }
                    }
                }
            }
            pos = pos + 1;
        }
        rk = rk + 1;
    }
    proof {
        assert forall|x: int, r2: int, p2: int|
            0 <= x < n && #[trigger] target_at(paths_by_rank@, r2, p2, x) implies rank_of@[x]
            == Some((r2 as usize, p2 as usize)) by {
            match rank_of@[x] {
                Some(rp) => {
                    assert(target_at(paths_by_rank@, rp.0 as int, rp.1 as int, x));
                    assert(rp.0 as int == r2 && rp.1 as int == p2);
                },
                None => {
                    assert(r2 < paths_by_rank@.len());
                    assert(!target_at(paths_by_rank@, r2, p2, x));
                },
            }
        }
    }
    // Node locations: one per ranked pair, at its bucket position.
    let levels = paths_by_rank.len();
    let mut locs_by_level: Vec<Vec<OriginalHorizontalRank>> = Vec::new();
    let mut loc_to_node: Vec<((usize, usize), Loc<usize, usize>)> = Vec::new();
    let mut node_to_loc: Vec<(Loc<usize, usize>, (usize, usize))> = Vec::new();
    let mut hops_by_level: Vec<Vec<Hop>> = Vec::new();
    let mut rk: usize = 0;
    while rk < levels
        invariant
            ranks_clean(paths_by_rank@, n as int),
            levels == paths_by_rank@.len(),
            rk <= levels,
            locs_by_level@.len() == rk,
            hops_by_level@.len() == rk,
            forall|r: int| 0 <= r < rk ==> (#[trigger] hops_by_level@[r]@).len() == 0,
            forall|r: int|
                0 <= r < rk ==> (#[trigger] locs_by_level@[r]@).len()
                    == paths_by_rank@[r]@.len(),
            forall|r: int, i: int|
                0 <= r < rk && 0 <= i < locs_by_level@[r]@.len() ==> (
                #[trigger] locs_by_level@[r]@[i]).0 == i,
            forall|k: int|
                0 <= k < loc_to_node@.len() ==> ((#[trigger] loc_to_node@[k]).0.0 as int) < rk
                    && (loc_to_node@[k].0.1 as int)
                    < locs_by_level@[loc_to_node@[k].0.0 as int]@.len(),
            forall|k1: int, k2: int|
                0 <= k1 < k2 < loc_to_node@.len() ==> (#[trigger] loc_to_node@[k1]).0 != (
                #[trigger] loc_to_node@[k2]).0,
            node_to_loc@.len() == loc_to_node@.len(),
            forall|k: int|
                0 <= k < loc_to_node@.len() ==> (#[trigger] node_to_loc@[k]).0
                    == loc_to_node@[k].1 && node_to_loc@[k].1 == loc_to_node@[k].0,
            forall|k1: int, k2: int|
                0 <= k1 < k2 < node_to_loc@.len() ==> (#[trigger] node_to_loc@[k1]).0 != (
                #[trigger] node_to_loc@[k2]).0,
            forall|k: int|
                0 <= k < loc_to_node@.len() ==> (#[trigger] loc_to_node@[k]).1 is Node,
            rank_of@.len() == n,
            forall|k: int|
                0 <= k < loc_to_node@.len() ==> node_entry_ok(
                    #[trigger] loc_to_node@[k],
                    rank_of@,
                ),
            forall|x: int|
                0 <= x < n ==> (match #[trigger] rank_of@[x] {
                    Some(rp) => target_at(paths_by_rank@, rp.0 as int, rp.1 as int, x),
                    None => true,
                }),
            forall|x: int, r2: int, p2: int|
                0 <= x < n && #[trigger] target_at(paths_by_rank@, r2, p2, x) ==> rank_of@[x]
                    == Some((r2 as usize, p2 as usize)),
            forall|rr: int, o: int|
                0 <= rr < rk && 0 <= o < locs_by_level@[rr]@.len() ==> #[trigger] has_loc_key(
                    loc_to_node@,
                    rr,
                    o,
                ),
            forall|rr: int, pp: int, x: int|
                #[trigger] target_at(paths_by_rank@, rr, pp, x) && rr < rk ==> has_node_loc(
                    loc_to_node@,
                    rr,
                    pp,
                    x,
                ),
        decreases levels - rk,
    {
        let bucket = &paths_by_rank[rk];
        let mut level: Vec<OriginalHorizontalRank> = Vec::new();
        let mut pos: usize = 0;
        while pos < bucket.len()
            invariant
                ranks_clean(paths_by_rank@, n as int),
                levels == paths_by_rank@.len(),
                rk < levels,
                bucket@ == paths_by_rank@[rk as int]@,
                pos <= bucket@.len(),
                level@.len() == pos,
                forall|i: int| 0 <= i < pos ==> (#[trigger] level@[i]).0 == i,
                locs_by_level@.len() == rk,
                forall|r: int|
                    0 <= r < rk ==> (#[trigger] locs_by_level@[r]@).len()
                        == paths_by_rank@[r]@.len(),
                forall|r: int, i: int|
                    0 <= r < rk && 0 <= i < locs_by_level@[r]@.len() ==> (
                    #[trigger] locs_by_level@[r]@[i]).0 == i,
                forall|k: int|
                    0 <= k < loc_to_node@.len() ==> (((#[trigger] loc_to_node@[k]).0.0 as int)
                        < rk && (loc_to_node@[k].0.1 as int)
                        < locs_by_level@[loc_to_node@[k].0.0 as int]@.len()) || (
                    loc_to_node@[k].0.0 as int == rk && (loc_to_node@[k].0.1 as int) < pos),
                forall|k1: int, k2: int|
                    0 <= k1 < k2 < loc_to_node@.len() ==> (#[trigger] loc_to_node@[k1]).0 != (
                    #[trigger] loc_to_node@[k2]).0,
                node_to_loc@.len() == loc_to_node@.len(),
                forall|k: int|
                    0 <= k < loc_to_node@.len() ==> (#[trigger] node_to_loc@[k]).0
                        == loc_to_node@[k].1 && node_to_loc@[k].1 == loc_to_node@[k].0,
                forall|k1: int, k2: int|
                    0 <= k1 < k2 < node_to_loc@.len() ==> (#[trigger] node_to_loc@[k1]).0 != (
                    #[trigger] node_to_loc@[k2]).0,
                forall|k: int|
                    0 <= k < loc_to_node@.len() ==> (#[trigger] loc_to_node@[k]).1 is Node,
                forall|k: int|
                    0 <= k < loc_to_node@.len() ==> node_entry_ok(
                        #[trigger] loc_to_node@[k],
                        rank_of@,
                    ),
                rank_of@.len() == n,
                forall|x: int|
                    0 <= x < n ==> (match #[trigger] rank_of@[x] {
                        Some(rp) => target_at(paths_by_rank@, rp.0 as int, rp.1 as int, x),
                        None => true,
                    }),
                forall|x: int, r2: int, p2: int|
                    0 <= x < n && #[trigger] target_at(paths_by_rank@, r2, p2, x) ==> rank_of@[x]
                        == Some((r2 as usize, p2 as usize)),
                forall|rr: int, o: int|
                    0 <= rr < rk && 0 <= o < locs_by_level@[rr]@.len() ==> #[trigger] has_loc_key(
                        loc_to_node@,
                        rr,
                        o,
                    ),
                forall|o: int|
                    0 <= o < pos ==> #[trigger] has_loc_key(loc_to_node@, rk as int, o),
                forall|rr: int, pp: int, x: int|
                    #[trigger] target_at(paths_by_rank@, rr, pp, x) && (rr < rk || (rr == rk && pp
                        < pos)) ==> has_node_loc(loc_to_node@, rr, pp, x),
            decreases bucket@.len() - pos,
        {
            let t = bucket[pos].1;
            level.push(OriginalHorizontalRank(pos));
            let ghost l2n_pre = loc_to_node@;
            let ghost n2l_pre = node_to_loc@;
            loc_to_node.push(((rk, pos), Loc::Node(t)));
            node_to_loc.push((Loc::Node(t), (rk, pos)));
            proof {
                assert(target_at(paths_by_rank@, rk as int, pos as int, t as int));
                assert(rank_of@[t as int] == Some((rk, pos)));
                assert(loc_to_node@ =~= l2n_pre.push(((rk, pos), Loc::<usize, usize>::Node(t))));
                lemma_locmap_frame(l2n_pre, loc_to_node@);
                assert(loc_to_node@.last() == ((rk, pos), Loc::<usize, usize>::Node(t)));
                assert(has_loc_key(loc_to_node@, rk as int, pos as int));
                assert forall|rr: int, pp: int, x: int|
                    #[trigger] target_at(paths_by_rank@, rr, pp, x) && (rr < rk || (rr == rk
                        && pp < pos + 1)) implies has_node_loc(loc_to_node@, rr, pp, x) by {
                    if rr == rk && pp == pos {
                        assert(x == t);
                        assert(has_node_loc(loc_to_node@, rr, pp, x));
                    } else {
                        assert(has_node_loc(l2n_pre, rr, pp, x));
                    }
                }
                assert forall|k1: int, k2: int|
                    0 <= k1 < k2 < loc_to_node@.len() implies (
                #[trigger] loc_to_node@[k1]).0 != (#[trigger] loc_to_node@[k2]).0 by {
                    if k2 == l2n_pre.len() {
                        assert(loc_to_node@[k2].0 == (rk, pos));
                        assert(loc_to_node@[k1] == l2n_pre[k1]);
                    } else {
                        assert(loc_to_node@[k1] == l2n_pre[k1]);
                        assert(loc_to_node@[k2] == l2n_pre[k2]);
                    }
                }
                assert forall|k1: int, k2: int|
                    0 <= k1 < k2 < node_to_loc@.len() implies (
                #[trigger] node_to_loc@[k1]).0 != (#[trigger] node_to_loc@[k2]).0 by {
                    if k2 == n2l_pre.len() {
                        assert(node_to_loc@[k2].0 == Loc::<usize, usize>::Node(t));
                        assert(node_to_loc@[k1] == n2l_pre[k1]);
                        if node_to_loc@[k1].0 == Loc::<usize, usize>::Node(t) {
                            assert(l2n_pre[k1].1 == Loc::<usize, usize>::Node(t));
                            assert(node_entry_ok(l2n_pre[k1], rank_of@));
                            assert(rank_of@[t as int] == Some(l2n_pre[k1].0));
                            assert(l2n_pre[k1].0 == (rk, pos));
                            assert(false);
                        }
                    } else {
                        assert(node_to_loc@[k1] == n2l_pre[k1]);
                        assert(node_to_loc@[k2] == n2l_pre[k2]);
                    }
                }
            }
            pos = pos + 1;
        }
        locs_by_level.push(level);
        hops_by_level.push(Vec::new());
        rk = rk + 1;
    }
    // Hops: cut each condensed edge into single-rank segments, giving each
    // intermediate rank a fresh location.
    let mut hops_by_edge: Vec<
        ((usize, usize), Vec<(VerticalRank, OriginalHorizontalRank, OriginalHorizontalRank)>),
    > = Vec::new();
    let mut k: usize = 0;
    while k < cvcg.cedges.len()
        invariant
            ranks_clean(paths_by_rank@, n as int),
            levels == paths_by_rank@.len(),
            n == cvcg.condensed_vxmap@.len(),
            rank_of@.len() == n,
            forall|x: int|
                0 <= x < n ==> (match #[trigger] rank_of@[x] {
                    Some(rp) => target_at(paths_by_rank@, rp.0 as int, rp.1 as int, x),
                    None => true,
                }),
            forall|x: int|
                0 <= x < cvcg.cedges@.len() ==> (#[trigger] cvcg.cedges@[x]).src < n
                    && cvcg.cedges@[x].dst < n,
            forall|k1: int, k2: int|
                0 <= k1 < k2 < cvcg.cedges@.len() ==> ((#[trigger] cvcg.cedges@[k1]).src, cvcg.cedges@[k1].dst) != ((#[trigger] cvcg.cedges@[k2]).src, cvcg.cedges@[k2].dst),
            k <= cvcg.cedges@.len(),
            locs_by_level@.len() == levels,
            hops_by_level@.len() == levels,
            forall|r: int, i: int|
                0 <= r < levels && 0 <= i < locs_by_level@[r]@.len() ==> (
                #[trigger] locs_by_level@[r]@[i]).0 == i,
            forall|x: int|
                0 <= x < loc_to_node@.len() ==> ((#[trigger] loc_to_node@[x]).0.0 as int)
                    < levels && (loc_to_node@[x].0.1 as int)
                    < locs_by_level@[loc_to_node@[x].0.0 as int]@.len(),
            forall|k1: int, k2: int|
                0 <= k1 < k2 < loc_to_node@.len() ==> (#[trigger] loc_to_node@[k1]).0 != (
                #[trigger] loc_to_node@[k2]).0,
            node_to_loc@.len() == loc_to_node@.len(),
            forall|x: int|
                0 <= x < loc_to_node@.len() ==> (#[trigger] node_to_loc@[x]).0
                    == loc_to_node@[x].1 && node_to_loc@[x].1 == loc_to_node@[x].0,
            forall|k1: int, k2: int|
                0 <= k1 < k2 < node_to_loc@.len() ==> (#[trigger] node_to_loc@[k1]).0 != (
                #[trigger] node_to_loc@[k2]).0,
            // Hop locations recorded so far belong to edges already processed.
            forall|x: int|
                0 <= x < loc_to_node@.len() ==> (match (#[trigger] loc_to_node@[x]).1 {
                    Loc::Node(_) => true,
                    Loc::Hop(_, hv, hw) => exists|y: int|
                        0 <= y < k && ((#[trigger] cvcg.cedges@[y]).src) == hv
                            && cvcg.cedges@[y].dst == hw,
                }),
            hops_by_edge@.len() == k,
            forall|x: int|
                0 <= x < k ==> (#[trigger] hops_by_edge@[x]).0 == (cvcg.cedges@[x].src, cvcg.cedges@[x].dst),
            forall|x: int|
                0 <= x < k ==> (#[trigger] hops_by_edge@[x]).1@.len() >= 1,
            forall|x: int, t: int|
                0 <= x < k && 0 <= t < hops_by_edge@[x].1@.len() ==> ((
                #[trigger] hops_by_edge@[x].1@[t]).0.0 as int) < levels,
            forall|x: int, t: int|
                0 <= x < k && 0 <= t < hops_by_edge@[x].1@.len() ==> ((
                #[trigger] hops_by_edge@[x].1@[t]).0.0 as int) == (hops_by_edge@[x].1@[0].0.0
                    as int) + t,
            forall|x: int, t: int|
                0 <= x < k && 0 <= t && t + 1 < hops_by_edge@[x].1@.len() ==> ((
                #[trigger] hops_by_edge@[x].1@[t]).2).0 == (hops_by_edge@[x].1@[t + 1].1).0,
            forall|x: int, r2: int, p2: int|
                0 <= x < n && #[trigger] target_at(paths_by_rank@, r2, p2, x) ==> rank_of@[x]
                    == Some((r2 as usize, p2 as usize)),
            forall|rr: int, o: int|
                0 <= rr < levels && 0 <= o < locs_by_level@[rr]@.len() ==> #[trigger] has_loc_key(
                    loc_to_node@,
                    rr,
                    o,
                ),
            forall|rr: int, pp: int, x: int|
                #[trigger] target_at(paths_by_rank@, rr, pp, x) ==> has_node_loc(
                    loc_to_node@,
                    rr,
                    pp,
                    x,
                ),
            forall|rr: int|
                0 <= rr < levels ==> (#[trigger] locs_by_level@[rr]@).len()
                    >= paths_by_rank@[rr]@.len(),
            forall|x: int|
                0 <= x < k ==> edge_ok(
                    paths_by_rank@,
                    (#[trigger] cvcg.cedges@[x]).src as int,
                    cvcg.cedges@[x].dst as int,
                ),
            forall|x: int|
                0 <= x < k ==> #[trigger] edge_chain_anchored(
                    paths_by_rank@,
                    hops_by_edge@[x],
                ),
            forall|x: int, t: int|
                0 <= x < k && 0 <= t < hops_by_edge@[x].1@.len() ==> ((
                #[trigger] hops_by_edge@[x].1@[t]).0.0 as int) + 1 < levels && ((
                hops_by_edge@[x].1@[t].1).0 as int) < locs_by_level@[(hops_by_edge@[x].1@[t].0).0
                    as int]@.len() && ((hops_by_edge@[x].1@[t].2).0 as int) < locs_by_level@[(
                hops_by_edge@[x].1@[t].0).0 as int + 1]@.len(),
            forall|l: int, y: int|
                0 <= l < levels && 0 <= y < hops_by_level@[l]@.len() ==> ((
                #[trigger] hops_by_level@[l]@[y]).lvl.0 as int) == l && hop_in_edges(
                    hops_by_edge@,
                    hops_by_level@[l]@[y],
                ),
            forall|x: int, t: int|
                0 <= x < k && 0 <= t < hops_by_edge@[x].1@.len() ==> hop_in_levels(
                    hops_by_level@,
                    hops_by_edge@[x].0,
                    #[trigger] hops_by_edge@[x].1@[t],
                ),
        decreases cvcg.cedges@.len() - k,
    {
        let edge = &cvcg.cedges[k];
        let vl = edge.src;
        let wl = edge.dst;
        proof {
            assert(vl == cvcg.cedges@[k as int].src);
            assert(wl == cvcg.cedges@[k as int].dst);
        }
        let vr = match rank_of[vl] {
            Some(rp) => rp,
            None => {
                proof {
                    if edge_ok(paths_by_rank@, vl as int, wl as int) {
                        let (r1, p1, r2, p2) = choose|r1: int, p1: int, r2: int, p2: int|
                            target_at(paths_by_rank@, r1, p1, vl as int) && target_at(
                                paths_by_rank@,
                                r2,
                                p2,
                                wl as int,
                            ) && r1 < r2;
                        assert(rank_of@[vl as int] == Some((r1 as usize, p1 as usize)));
                        assert(false);
                    }
                }
                return Err(Error::GraphDrawingError { source: Kind::IndexingError });
            },
        };
        let wr = match rank_of[wl] {
            Some(rp) => rp,
            None => {
                proof {
                    if edge_ok(paths_by_rank@, vl as int, wl as int) {
                        let (r1, p1, r2, p2) = choose|r1: int, p1: int, r2: int, p2: int|
                            target_at(paths_by_rank@, r1, p1, vl as int) && target_at(
                                paths_by_rank@,
                                r2,
                                p2,
                                wl as int,
                            ) && r1 < r2;
                        assert(rank_of@[wl as int] == Some((r2 as usize, p2 as usize)));
                        assert(false);
                    }
                }
                return Err(Error::GraphDrawingError { source: Kind::IndexingError });
            },
        };
        let (vvr, vhr) = vr;
        let (wvr, whr) = wr;
        if wvr <= vvr {
            proof {
                if edge_ok(paths_by_rank@, vl as int, wl as int) {
                    let (r1, p1, r2, p2) = choose|r1: int, p1: int, r2: int, p2: int|
                        target_at(paths_by_rank@, r1, p1, vl as int) && target_at(
                            paths_by_rank@,
                            r2,
                            p2,
                            wl as int,
                        ) && r1 < r2;
                    assert(rank_of@[vl as int] == Some((r1 as usize, p1 as usize)));
                    assert(rank_of@[wl as int] == Some((r2 as usize, p2 as usize)));
                    assert(r1 == vvr as int && r2 == wvr as int);
                    assert(false);
                }
            }
            return Err(Error::GraphDrawingError { source: Kind::IndexingError });
        }
        proof {
            assert(target_at(paths_by_rank@, vvr as int, vhr as int, vl as int));
            assert(target_at(paths_by_rank@, wvr as int, whr as int, wl as int));
            assert((vvr as int) < levels && (wvr as int) < levels);
        }
        let mut mhrs: Vec<usize> = Vec::new();
        mhrs.push(vhr);
        let mut mid: usize = vvr + 1;
        while mid < wvr
            invariant
                levels == paths_by_rank@.len(),
                vvr < wvr,
                (wvr as int) < levels,
                k < cvcg.cedges@.len(),
                vl == cvcg.cedges@[k as int].src,
                wl == cvcg.cedges@[k as int].dst,
                target_at(paths_by_rank@, vvr as int, vhr as int, vl as int),
                target_at(paths_by_rank@, wvr as int, whr as int, wl as int),
                forall|k1: int, k2: int|
                    0 <= k1 < k2 < cvcg.cedges@.len() ==> ((#[trigger] cvcg.cedges@[k1]).src, cvcg.cedges@[k1].dst) != ((#[trigger] cvcg.cedges@[k2]).src, cvcg.cedges@[k2].dst),
                vvr + 1 <= mid <= wvr,
                mhrs@.len() == mid - vvr,
                mhrs@[0] == vhr,
                forall|t: int|
                    1 <= t < mhrs@.len() ==> ((#[trigger] mhrs@[t]) as int) < locs_by_level@[
                        vvr as int + t]@.len(),
                forall|rr: int, o: int|
                    0 <= rr < levels && 0 <= o < locs_by_level@[rr]@.len()
                        ==> #[trigger] has_loc_key(loc_to_node@, rr, o),
                forall|rr: int, pp: int, x: int|
                    #[trigger] target_at(paths_by_rank@, rr, pp, x) ==> has_node_loc(
                        loc_to_node@,
                        rr,
                        pp,
                        x,
                    ),
                forall|rr: int|
                    0 <= rr < levels ==> (#[trigger] locs_by_level@[rr]@).len()
                        >= paths_by_rank@[rr]@.len(),
                hops_by_edge@.len() == k,
                forall|x: int, t: int|
                    0 <= x < k && 0 <= t < hops_by_edge@[x].1@.len() ==> ((
                    #[trigger] hops_by_edge@[x].1@[t]).0.0 as int) + 1 < levels && ((
                    hops_by_edge@[x].1@[t].1).0 as int) < locs_by_level@[(
                    hops_by_edge@[x].1@[t].0).0 as int]@.len() && ((hops_by_edge@[x].1@[t].2).0
                        as int) < locs_by_level@[(hops_by_edge@[x].1@[t].0).0 as int + 1]@.len(),
                locs_by_level@.len() == levels,
                hops_by_level@.len() == levels,
                forall|r: int, i: int|
                    0 <= r < levels && 0 <= i < locs_by_level@[r]@.len() ==> (
                    #[trigger] locs_by_level@[r]@[i]).0 == i,
                forall|x: int|
                    0 <= x < loc_to_node@.len() ==> ((#[trigger] loc_to_node@[x]).0.0 as int)
                        < levels && (loc_to_node@[x].0.1 as int)
                        < locs_by_level@[loc_to_node@[x].0.0 as int]@.len(),
                forall|k1: int, k2: int|
                    0 <= k1 < k2 < loc_to_node@.len() ==> (#[trigger] loc_to_node@[k1]).0 != (
                    #[trigger] loc_to_node@[k2]).0,
                node_to_loc@.len() == loc_to_node@.len(),
                forall|x: int|
                    0 <= x < loc_to_node@.len() ==> (#[trigger] node_to_loc@[x]).0
                        == loc_to_node@[x].1 && node_to_loc@[x].1 == loc_to_node@[x].0,
                forall|k1: int, k2: int|
                    0 <= k1 < k2 < node_to_loc@.len() ==> (#[trigger] node_to_loc@[k1]).0 != (
                    #[trigger] node_to_loc@[k2]).0,
                forall|x: int|
                    0 <= x < loc_to_node@.len() ==> (match (#[trigger] loc_to_node@[x]).1 {
                        Loc::Node(_) => true,
                        Loc::Hop(hl, hv, hw) => (exists|y: int|
                            0 <= y < k && ((#[trigger] cvcg.cedges@[y]).src) == hv
                                && cvcg.cedges@[y].dst == hw) || (hv == vl && hw == wl && vvr
                            < (hl.0 as int) < mid),
                    }),
        decreases wvr - mid,
        {
            let ghost locs_pre = locs_by_level@;
            let mut tmp: Vec<OriginalHorizontalRank> = Vec::new();
            core::mem::swap(&mut tmp, &mut locs_by_level[mid]);
            let mhr = tmp.len();
            tmp.push(OriginalHorizontalRank(mhr));
            core::mem::swap(&mut tmp, &mut locs_by_level[mid]);
            proof {
                assert(mhr == locs_pre[mid as int]@.len());
                assert(locs_by_level@[mid as int]@ =~= locs_pre[mid as int]@.push(
                    OriginalHorizontalRank(mhr),
                ));
                assert(forall|r: int|
                    0 <= r < levels && r != mid ==> locs_by_level@[r] == locs_pre[r]);
            }
            let ghost l2n_pre = loc_to_node@;
            let ghost n2l_pre = node_to_loc@;
            loc_to_node.push(((mid, mhr), Loc::Hop(VerticalRank(mid), vl, wl)));
            node_to_loc.push((Loc::Hop(VerticalRank(mid), vl, wl), (mid, mhr)));
            mhrs.push(mhr);
            proof {
                assert(locs_by_level@[mid as int]@.len() == mhr + 1);
                assert(loc_to_node@ =~= l2n_pre.push(
                    ((mid, mhr), Loc::<usize, usize>::Hop(VerticalRank(mid), vl, wl)),
                ));
                lemma_locmap_frame(l2n_pre, loc_to_node@);
                assert(loc_to_node@.last() == (
                    (mid, mhr),
                    Loc::<usize, usize>::Hop(VerticalRank(mid), vl, wl),
                ));
                assert(has_loc_key(loc_to_node@, mid as int, mhr as int));
                assert forall|rr: int, o: int|
                    0 <= rr < levels && 0 <= o < locs_by_level@[rr]@.len() implies #[trigger] has_loc_key(
                    loc_to_node@,
                    rr,
                    o,
                ) by {
                    if rr == mid && o == mhr {
                    } else {
                        if rr == mid {
                            assert(o < locs_pre[rr]@.len());
                        } else {
                            assert(locs_by_level@[rr] == locs_pre[rr]);
                        }
                        assert(has_loc_key(l2n_pre, rr, o));
                    }
                }
                assert forall|t: int|
                    1 <= t < mhrs@.len() implies ((#[trigger] mhrs@[t]) as int) < locs_by_level@[
                    vvr as int + t]@.len() by {
                    if t < mhrs@.len() - 1 {
                        assert(vvr as int + t < mid);
                        assert(locs_by_level@[vvr as int + t] == locs_pre[vvr as int + t]);
                    } else {
                        assert(mhrs@[t] == mhr);
                    }
                }
                assert forall|x: int, t: int|
                    0 <= x < k && 0 <= t < hops_by_edge@[x].1@.len() implies ((
                #[trigger] hops_by_edge@[x].1@[t]).0.0 as int) + 1 < levels && ((
                hops_by_edge@[x].1@[t].1).0 as int) < locs_by_level@[(hops_by_edge@[x].1@[t].0).0
                    as int]@.len() && ((hops_by_edge@[x].1@[t].2).0 as int) < locs_by_level@[(
                hops_by_edge@[x].1@[t].0).0 as int + 1]@.len() by {
                    let lv = (hops_by_edge@[x].1@[t].0).0 as int;
                    if lv == mid {
                        assert(locs_by_level@[lv]@.len() == locs_pre[lv]@.len() + 1);
                    } else {
                        assert(locs_by_level@[lv] == locs_pre[lv]);
                    }
                    if lv + 1 == mid {
                        assert(locs_by_level@[lv + 1]@.len() == locs_pre[lv + 1]@.len() + 1);
                    } else {
                        assert(locs_by_level@[lv + 1] == locs_pre[lv + 1]);
                    }
                }
                assert forall|rr: int|
                    0 <= rr < levels implies (#[trigger] locs_by_level@[rr]@).len()
                    >= paths_by_rank@[rr]@.len() by {
                    if rr == mid {
                        assert(locs_by_level@[rr]@.len() == locs_pre[rr]@.len() + 1);
                    } else {
                        assert(locs_by_level@[rr] == locs_pre[rr]);
                    }
                }
                assert forall|r: int, i: int|
                    0 <= r < levels && 0 <= i < locs_by_level@[r]@.len() implies (
                #[trigger] locs_by_level@[r]@[i]).0 == i by {
                    if r == mid {
                        if i < mhr {
                            assert(locs_by_level@[r]@[i] == locs_pre[r]@[i]);
                        } else {
                            assert(locs_by_level@[r]@[i].0 == mhr);
                        }
                    } else {
                        assert(locs_by_level@[r] == locs_pre[r]);
                    }
                }
                assert forall|x: int|
                    0 <= x < loc_to_node@.len() implies ((#[trigger] loc_to_node@[x]).0.0
                    as int) < levels && (loc_to_node@[x].0.1 as int)
                    < locs_by_level@[loc_to_node@[x].0.0 as int]@.len() by {
                    if x < l2n_pre.len() {
                        assert(loc_to_node@[x] == l2n_pre[x]);
                        if (loc_to_node@[x].0.0 as int) == mid {
                            assert(locs_by_level@[mid as int]@.len() == locs_pre[mid as int]@.len()
                                + 1);
                        } else {
                            assert(locs_by_level@[loc_to_node@[x].0.0 as int] == locs_pre[
                                loc_to_node@[x].0.0 as int]);
                        }
                    } else {
                        assert(loc_to_node@[x].0 == (mid, mhr));
                    }
                }
                assert forall|k1: int, k2: int|
                    0 <= k1 < k2 < loc_to_node@.len() implies (#[trigger] loc_to_node@[k1]).0
                    != (#[trigger] loc_to_node@[k2]).0 by {
                    if k2 == l2n_pre.len() {
                        assert(loc_to_node@[k2].0 == (mid, mhr));
                        assert(loc_to_node@[k1] == l2n_pre[k1]);
                        if l2n_pre[k1].0 == (mid, mhr) {
                            assert((l2n_pre[k1].0.1 as int) < locs_pre[mid as int]@.len());
                            assert(false);
                        }
                    } else {
                        assert(loc_to_node@[k1] == l2n_pre[k1]);
                        assert(loc_to_node@[k2] == l2n_pre[k2]);
                    }
                }
                assert forall|k1: int, k2: int|
                    0 <= k1 < k2 < node_to_loc@.len() implies (#[trigger] node_to_loc@[k1]).0
                    != (#[trigger] node_to_loc@[k2]).0 by {
                    if k2 == n2l_pre.len() {
                        assert(node_to_loc@[k2].0 == Loc::<usize, usize>::Hop(
                            VerticalRank(mid),
                            vl,
                            wl,
                        ));
                        assert(node_to_loc@[k1] == n2l_pre[k1]);
                        if n2l_pre[k1].0 == Loc::<usize, usize>::Hop(VerticalRank(mid), vl, wl) {
                            assert(l2n_pre[k1].1 == Loc::<usize, usize>::Hop(
                                VerticalRank(mid),
                                vl,
                                wl,
                            ));
                            assert(vl == cvcg.cedges@[k as int].src);
                            assert(wl == cvcg.cedges@[k as int].dst);
                            assert(exists|y: int|
                                0 <= y < k && ((#[trigger] cvcg.cedges@[y]).src) == vl
                                    && cvcg.cedges@[y].dst == wl);
                            let y = choose|y: int|
                                0 <= y < k && ((#[trigger] cvcg.cedges@[y]).src) == vl
                                    && cvcg.cedges@[y].dst == wl;
                            assert(0 <= y < k && cvcg.cedges@[y].src == vl && cvcg.cedges@[y].dst == wl);
                            assert(cvcg.cedges@[y].src == cvcg.cedges@[k as int].src);
                            assert(cvcg.cedges@[y].dst == cvcg.cedges@[k as int].dst);
                            assert(((cvcg.cedges@[y]).src, cvcg.cedges@[y].dst) != ((
                            cvcg.cedges@[k as int]).src, cvcg.cedges@[k as int].dst));
                            assert(false);
                        }
                    } else {
                        assert(node_to_loc@[k1] == n2l_pre[k1]);
                        assert(node_to_loc@[k2] == n2l_pre[k2]);
                    }
                }
            }
            mid = mid + 1;
        }
        let ghost mhrs_mid = mhrs@;
        mhrs.push(whr);
        proof {
            assert(mhrs@ =~= mhrs_mid.push(whr));
            assert(mhrs@.len() == wvr - vvr + 1);
            assert(mhrs@[0] == vhr);
            assert(mhrs@[(wvr - vvr) as int] == whr);
            assert forall|t: int|
                1 <= t < mhrs@.len() - 1 implies ((#[trigger] mhrs@[t]) as int) < locs_by_level@[
                vvr as int + t]@.len() by {
                assert(mhrs@[t] == mhrs_mid[t]);
            }
        }
        let span = wvr - vvr;
        let mut hops: Vec<(VerticalRank, OriginalHorizontalRank, OriginalHorizontalRank)> =
            Vec::new();
        let mut t: usize = 0;
        while t < span
            invariant
                span == wvr - vvr,
                vvr < wvr,
                (wvr as int) < levels,
                mhrs@.len() == span + 1,
                t <= span,
                hops@.len() == t,
                hops_by_level@.len() == levels,
                hops_by_edge@.len() == k,
                k < cvcg.cedges@.len(),
                forall|x: int|
                    0 <= x < t ==> (#[trigger] hops@[x]) == (
                        VerticalRank((vvr + x) as usize),
                        OriginalHorizontalRank(mhrs@[x]),
                        OriginalHorizontalRank(mhrs@[x + 1]),
                    ),
                forall|x: int, t2: int|
                    0 <= x < k && 0 <= t2 < hops_by_edge@[x].1@.len() ==> hop_in_levels(
                        hops_by_level@,
                        hops_by_edge@[x].0,
                        #[trigger] hops_by_edge@[x].1@[t2],
                    ),
                forall|l: int, y: int|
                    0 <= l < levels && 0 <= y < hops_by_level@[l]@.len() ==> ((
                    #[trigger] hops_by_level@[l]@[y]).lvl.0 as int) == l && (hop_in_edges(
                        hops_by_edge@,
                        hops_by_level@[l]@[y],
                    ) || (hops_by_level@[l]@[y].vl == vl && hops_by_level@[l]@[y].wl == wl
                        && exists|t2: int|
                        0 <= t2 < hops@.len() && (#[trigger] hops@[t2]) == (
                            hops_by_level@[l]@[y].lvl,
                            hops_by_level@[l]@[y].mhr,
                            hops_by_level@[l]@[y].nhr,
                        ))),
                forall|t2: int|
                    0 <= t2 < t ==> hop_in_levels(
                        hops_by_level@,
                        (vl, wl),
                        #[trigger] hops@[t2],
                    ),
            decreases span - t,
        {
            let lvl = vvr + t;
            let ghost hops_pre2 = hops@;
            let tuple = (
                VerticalRank(lvl),
                OriginalHorizontalRank(mhrs[t]),
                OriginalHorizontalRank(mhrs[t + 1]),
            );
            hops.push(tuple);
            let hop = Hop {
                mhr: OriginalHorizontalRank(mhrs[t]),
                nhr: OriginalHorizontalRank(mhrs[t + 1]),
                vl,
                wl,
                lvl: VerticalRank(lvl),
            };
            let ghost hbl_pre = hops_by_level@;
            let mut tmp: Vec<Hop> = Vec::new();
            core::mem::swap(&mut tmp, &mut hops_by_level[lvl]);
            tmp.push(hop);
            core::mem::swap(&mut tmp, &mut hops_by_level[lvl]);
            proof {
                assert(hops@ =~= hops_pre2.push(tuple));
                assert(hops_by_level@[lvl as int]@ =~= hbl_pre[lvl as int]@.push(hop));
                assert(forall|l: int|
                    0 <= l < levels && l != lvl ==> hops_by_level@[l] == hbl_pre[l]);
                lemma_hbl_frame(hbl_pre, hops_by_level@);
                assert(hops_by_level@[lvl as int]@.last() == hop);
                assert(hop_in_levels(hops_by_level@, (vl, wl), tuple));
                assert forall|t2: int| 0 <= t2 < t + 1 implies hop_in_levels(
                    hops_by_level@,
                    (vl, wl),
                    #[trigger] hops@[t2],
                ) by {
                    if t2 < t {
                        assert(hops@[t2] == hops_pre2[t2]);
                        assert(hop_in_levels(hbl_pre, (vl, wl), hops_pre2[t2]));
                    }
                }
                assert forall|l: int, y: int|
                    0 <= l < levels && 0 <= y < hops_by_level@[l]@.len() implies ((
                #[trigger] hops_by_level@[l]@[y]).lvl.0 as int) == l && (hop_in_edges(
                    hops_by_edge@,
                    hops_by_level@[l]@[y],
                ) || (hops_by_level@[l]@[y].vl == vl && hops_by_level@[l]@[y].wl == wl
                    && exists|t2: int|
                    0 <= t2 < hops@.len() && (#[trigger] hops@[t2]) == (
                        hops_by_level@[l]@[y].lvl,
                        hops_by_level@[l]@[y].mhr,
                        hops_by_level@[l]@[y].nhr,
                    ))) by {
                    if l == lvl && y == hbl_pre[l]@.len() {
                        assert(hops_by_level@[l]@[y] == hop);
                        assert(hops@[t as int] == tuple);
                    } else {
                        assert(hops_by_level@[l]@[y] == hbl_pre[l]@[y]);
                        let oldh = hbl_pre[l]@[y];
                        if !hop_in_edges(hops_by_edge@, oldh) {
                            let t2 = choose|t2: int|
                                0 <= t2 < hops_pre2.len() && (#[trigger] hops_pre2[t2]) == (
                                oldh.lvl, oldh.mhr, oldh.nhr);
                            assert(hops@[t2] == hops_pre2[t2]);
                        }
                    }
                }
            }
            t = t + 1;
        }
        let ghost hbe_pre = hops_by_edge@;
        let ghost hops_snap = hops@;
        proof {
            assert forall|x: int| 0 <= x < hops_snap.len() implies #[trigger] hops_snap[x] == (
                VerticalRank((vvr + x) as usize),
                OriginalHorizontalRank(mhrs@[x]),
                OriginalHorizontalRank(mhrs@[x + 1]),
            ) by {
                assert(hops_snap[x] == hops@[x]);
            }
        }
        hops_by_edge.push(((vl, wl), hops));
        proof {
            assert(hops_by_edge@[k as int].1@ =~= hops_snap);
            assert(hops_by_edge@[k as int].0 == (vl, wl));
            assert forall|x: int| 0 <= x < k + 1 implies #[trigger] edge_chain_anchored(
                paths_by_rank@,
                hops_by_edge@[x],
            ) by {
                if x < k {
                    assert(hops_by_edge@[x] == hbe_pre[x]);
                    assert(edge_chain_anchored(paths_by_rank@, hbe_pre[x]));
                } else {
                    assert(hops_snap.len() == span);
                    assert(hops_snap[0] == (
                        VerticalRank((vvr + 0) as usize),
                        OriginalHorizontalRank(mhrs@[0]),
                        OriginalHorizontalRank(mhrs@[1]),
                    ));
                    assert(hops_snap[span - 1] == (
                        VerticalRank((vvr + (span - 1)) as usize),
                        OriginalHorizontalRank(mhrs@[span - 1]),
                        OriginalHorizontalRank(mhrs@[span as int]),
                    ));
                    assert(target_at(paths_by_rank@, vvr as int, vhr as int, vl as int));
                    assert(target_at(paths_by_rank@, wvr as int, whr as int, wl as int));
                    assert(((hops_by_edge@[x].1@[0].0).0 as int) == vvr as int);
                    assert(((hops_by_edge@[x].1@[0].1).0 as int) == vhr as int);
                    assert(((hops_by_edge@[x].1@.last().2).0 as int) == whr as int);
                    assert(hops_by_edge@[x].0.0 == vl && hops_by_edge@[x].0.1 == wl);
                    assert(target_at(
                        paths_by_rank@,
                        vvr as int,
                        vhr as int,
                        hops_by_edge@[x].0.0 as int,
                    ));
                    assert(target_at(
                        paths_by_rank@,
                        wvr as int,
                        whr as int,
                        hops_by_edge@[x].0.1 as int,
                    ));
                    assert(edge_chain_anchored(paths_by_rank@, hops_by_edge@[x]));
                }
            }
            assert forall|x: int, t: int|
                0 <= x < k + 1 && 0 <= t < hops_by_edge@[x].1@.len() implies ((
            #[trigger] hops_by_edge@[x].1@[t]).0.0 as int) + 1 < levels && ((
            hops_by_edge@[x].1@[t].1).0 as int) < locs_by_level@[(hops_by_edge@[x].1@[t].0).0
                as int]@.len() && ((hops_by_edge@[x].1@[t].2).0 as int) < locs_by_level@[(
            hops_by_edge@[x].1@[t].0).0 as int + 1]@.len() by {
                if x < k {
                    assert(hops_by_edge@[x] == hbe_pre[x]);
                } else {
                    assert(hops_by_edge@[x].1@[t] == hops_snap[t]);
                    assert(hops_snap[t] == (
                        VerticalRank((vvr + t) as usize),
                        OriginalHorizontalRank(mhrs@[t]),
                        OriginalHorizontalRank(mhrs@[t + 1]),
                    ));
                    assert(vvr as int + t + 1 <= wvr as int);
                    assert((locs_by_level@[vvr as int]@).len() >= paths_by_rank@[vvr as int]@.len());
                    assert((locs_by_level@[wvr as int]@).len() >= paths_by_rank@[wvr as int]@.len());
                    if t == 0 {
                        assert((mhrs@[0] as int) < locs_by_level@[vvr as int]@.len());
                    }
                    if t + 1 == span {
                        assert((mhrs@[span as int] as int) < locs_by_level@[wvr as int]@.len());
                    }
                }
            }
            assert forall|x: int|
                0 <= x < k + 1 implies edge_ok(
                paths_by_rank@,
                (#[trigger] cvcg.cedges@[x]).src as int,
                cvcg.cedges@[x].dst as int,
            ) by {
                if x == k {
                    assert(target_at(paths_by_rank@, vvr as int, vhr as int, vl as int));
                    assert(target_at(paths_by_rank@, wvr as int, whr as int, wl as int));
                }
            }
            assert forall|x: int|
                0 <= x < loc_to_node@.len() implies (match (#[trigger] loc_to_node@[x]).1 {
                Loc::Node(_) => true,
                Loc::Hop(_, hv, hw) => exists|y: int|
                    0 <= y < k + 1 && ((#[trigger] cvcg.cedges@[y]).src) == hv
                        && cvcg.cedges@[y].dst == hw,
            }) by {
                match loc_to_node@[x].1 {
                    Loc::Node(_) => {},
                    Loc::Hop(hl, hv, hw) => {
                        if exists|y: int|
                            0 <= y < k && ((#[trigger] cvcg.cedges@[y]).src) == hv
                                && cvcg.cedges@[y].dst == hw {
                            let y = choose|y: int|
                                0 <= y < k && ((#[trigger] cvcg.cedges@[y]).src) == hv
                                    && cvcg.cedges@[y].dst == hw;
                            assert(0 <= y < k + 1 && cvcg.cedges@[y].src == hv
                                && cvcg.cedges@[y].dst == hw);
                        } else {
                            assert(hv == vl && hw == wl);
                            assert(cvcg.cedges@[k as int].src == hv && cvcg.cedges@[k as int].dst
                                == hw);
                        }
                    },
                }
            }
            assert(forall|x: int| 0 <= x < k ==> hops_by_edge@[x] == hbe_pre[x]);
            assert(hops_by_edge@[k as int].1@.len() == span);
            assert(hops_by_edge@[k as int].1@[0].0.0 == vvr);
            assert forall|x: int, t: int|
                0 <= x < k + 1 && 0 <= t < hops_by_edge@[x].1@.len() implies ((
            #[trigger] hops_by_edge@[x].1@[t]).0.0 as int) == (hops_by_edge@[x].1@[0].0.0
                as int) + t && ((hops_by_edge@[x].1@[t]).0.0 as int) < levels by {
                if x == k {
                    assert(t < hops_snap.len());
                    assert(hops_by_edge@[x].1@[t] == hops_snap[t]);
                    assert(hops_by_edge@[x].1@[0] == hops_snap[0]);
                    assert(hops_snap[0].0.0 == vvr);
                } else {
                    assert(hops_by_edge@[x] == hbe_pre[x]);
                    assert(((hbe_pre[x].1@[t]).0.0 as int) == (hbe_pre[x].1@[0].0.0 as int) + t);
                    assert(((hbe_pre[x].1@[t]).0.0 as int) < levels);
                }
            }
            assert forall|x: int, t: int|
                0 <= x < k + 1 && 0 <= t && t + 1 < hops_by_edge@[x].1@.len() implies ((
            #[trigger] hops_by_edge@[x].1@[t]).2).0 == (hops_by_edge@[x].1@[t + 1].1).0 by {
                if x == k {
                    assert(t + 1 < hops_snap.len());
                    assert(hops_by_edge@[x].1@[t] == hops_snap[t]);
                    assert(hops_by_edge@[x].1@[t + 1] == hops_snap[t + 1]);
                } else {
                    assert(hops_by_edge@[x] == hbe_pre[x]);
                    assert(((hbe_pre[x].1@[t]).2).0 == (hbe_pre[x].1@[t + 1].1).0);
                }
            }
        }
        k = k + 1;
    }
    let placement = Placement { locs_by_level, hops_by_level, hops_by_edge, loc_to_node, node_to_loc };
    proof {
        assert forall|x: int|
            0 <= x < placement.hops_by_edge@.len() implies (
        #[trigger] placement.edge_hops_chain(x)) by {}
    }
    Ok(placement)
}

} // verus!
