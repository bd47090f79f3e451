//! Geometry: dense solution ids and the quadratic positioning problem.
//!
//! Every location receives a dense id with a left and a right coordinate
//! variable, every hop (plus one sentinel per edge, so control points can
//! be walked uniformly) a dense id with a centerline variable. The
//! problem builder emits the containment, minimum-width, separation and
//! symmetry rows of the positioning program; the numeric solve happens
//! outside, on the column-compressed form of these rows.

use vstd::prelude::*;

use crate::algebra::{is_two_row, Constraint, Constraints, Fresh, Monomial, Sol, Vars};
use crate::error::{Error, Kind, LayoutError};
use crate::index::{HopSol, LocSol, OriginalHorizontalRank, SolvedHorizontalRank, VerticalRank};
use crate::placement::{Loc, Placement};

verus! {

/// Horizontal separation between neighboring objects.
pub const SEP: i64 = 20;

/// Default width of a hop label half when none was measured.
pub const DEFAULT_HOP_WIDTH: u64 = 20;

/// A solution variable of the positioning program: a location's left or
/// right edge, a hop's centerline, or an auxiliary variable.
#[derive(Clone, Copy, Debug, PartialEq, Eq, Structural, Hash)]
pub enum AnySol {
    L(LocSol),
    R(LocSol),
    S(HopSol),
    T(usize),
}

impl Fresh for AnySol {
    open spec fn fresh_spec(index: usize) -> Self {
        AnySol::T(index)
    }

    fn fresh(index: usize) -> Self {
        AnySol::T(index)
    }
}

impl Sol for AnySol {
    fn eq_sol(&self, other: &Self) -> (r: bool) {
        *self == *other
    }
}

/// One located object with its solved position and dense id.
#[derive(Clone, Copy, Debug, PartialEq, Eq, Structural)]
pub struct LocRow {
    pub ovr: VerticalRank,
    pub ohr: OriginalHorizontalRank,
    pub shr: SolvedHorizontalRank,
    pub loc: Loc<usize, usize>,
    pub n: LocSol,
}

/// One hop (or sentinel control point) with its dense id.
#[derive(Clone, Copy, Debug, PartialEq, Eq, Structural)]
pub struct HopRow {
    pub lvl: VerticalRank,
    pub mhr: OriginalHorizontalRank,
    pub nhr: OriginalHorizontalRank,
    pub vl: usize,
    pub wl: usize,
    pub n: HopSol,
}

/// The dense ids, reverse maps and width tables of the positioning
/// problem.
#[derive(Clone, Debug)]
pub struct LayoutProblem {
    pub all_locs: Vec<LocRow>,
    pub all_hops0: Vec<HopRow>,
    pub all_hops: Vec<HopRow>,
    pub sol_by_loc: Vec<((usize, usize), LocSol)>,
    pub sol_by_hop: Vec<((usize, usize, usize, usize), HopSol)>,
    pub width_by_loc: Vec<((usize, usize), u64)>,
    pub width_by_hop: Vec<((usize, usize, usize, usize), (u64, u64))>,
}

/// Some location row carries the coordinate `(rank, position)`.
pub open spec fn loc_row_at(rows: Seq<LocRow>, r: int, o: int) -> bool {
    exists|k: int|
        0 <= k < rows.len() && ((#[trigger] rows[k]).ovr.0 as int) == r && (rows[k].ohr.0
            as int) == o
}

/// Some hop row carries the hop's level, positions and edge.
pub open spec fn hop_row_for(rows: Seq<HopRow>, h: crate::placement::Hop) -> bool {
    exists|k: int|
        0 <= k < rows.len() && (#[trigger] rows[k]).lvl == h.lvl && rows[k].mhr == h.mhr
            && rows[k].nhr == h.nhr && rows[k].vl == h.vl && rows[k].wl == h.wl
}

/// The row's coordinate and object come straight from the location map.
pub open spec fn loc_row_sourced(
    l2n: Seq<((usize, usize), Loc<usize, usize>)>,
    row: LocRow,
) -> bool {
    exists|e: int|
        0 <= e < l2n.len() && (#[trigger] l2n[e]) == ((row.ovr.0, row.ohr.0), row.loc)
}

/// Some hop row is the edge's final control point: one rank below the
/// edge's last hop, at that hop's lower position, with an unreachable
/// lower position of its own.
pub open spec fn sentinel_row_for(
    rows: Seq<HopRow>,
    key: (usize, usize),
    last: (VerticalRank, OriginalHorizontalRank, OriginalHorizontalRank),
) -> bool {
    (last.0.0 as int) < usize::MAX ==> exists|k: int|
        0 <= k < rows.len() && ((#[trigger] rows[k]).lvl.0 as int) == (last.0.0 as int) + 1
            && rows[k].mhr == last.2 && (rows[k].nhr.0 as int) == usize::MAX - (last.1.0 as int)
            && rows[k].vl == key.0 && rows[k].wl == key.1
}

/// How many hops the first `l` levels hold.
pub open spec fn hops_total(hbl: Seq<Vec<crate::placement::Hop>>, l: int) -> int
    decreases l,
{
    if l <= 0 || l > hbl.len() {
        0
    } else {
        hops_total(hbl, l - 1) + hbl[l - 1]@.len()
    }
}

/// Total label width of the first hops of the node's outgoing edges,
/// over the first `e` edges of the table.
pub open spec fn out_width_upto(
    hbe: Seq<((usize, usize), Vec<(VerticalRank, OriginalHorizontalRank, OriginalHorizontalRank)>)>,
    wbh: Seq<((usize, usize, usize, usize), (u64, u64))>,
    x: usize,
    e: int,
) -> int
    decreases e,
{
    if e <= 0 || e > hbe.len() {
        0
    } else {
        let rest = out_width_upto(hbe, wbh, x, e - 1);
        let entry = hbe[e - 1];
        if entry.0.0 == x && entry.1@.len() >= 1 {
            let f = entry.1@[0];
            let w = hop_widths(
                wbh,
                (f.0).0 as int,
                (f.1).0 as int,
                entry.0.0 as int,
                entry.0.1 as int,
            );
            rest + w.0 + w.1
        } else {
            rest
        }
    }
}

/// Total label width of the last hops of the node's incoming edges, over
/// the first `e` edges of the table.
pub open spec fn in_width_upto(
    hbe: Seq<((usize, usize), Vec<(VerticalRank, OriginalHorizontalRank, OriginalHorizontalRank)>)>,
    wbh: Seq<((usize, usize, usize, usize), (u64, u64))>,
    x: usize,
    e: int,
) -> int
    decreases e,
{
    if e <= 0 || e > hbe.len() {
        0
    } else {
        let rest = in_width_upto(hbe, wbh, x, e - 1);
        let entry = hbe[e - 1];
        if entry.0.1 == x && entry.1@.len() >= 1 {
            let f = entry.1@.last();
            let w = hop_widths(
                wbh,
                (f.0).0 as int,
                (f.1).0 as int,
                entry.0.0 as int,
                entry.0.1 as int,
            );
            rest + w.0 + w.1
        } else {
            rest
        }
    }
}

/// Refine the solved positions into dense ids.
///
/// Location rows walk the ranks top to bottom and each rank left to
/// right in original order; hop rows walk the levels, and `all_hops`
/// appends one sentinel per edge whose lower position is far outside any
/// rank, standing for the edge's final control point. Width tables start
/// empty; the measuring front end fills them.
pub fn calculate_sols(solved_locs: &Vec<Vec<usize>>, placement: &Placement) -> (r: LayoutProblem)
    requires
        forall|rr: int, o: int|
            0 <= rr < solved_locs@.len() && 0 <= o < solved_locs@[rr]@.len()
                ==> crate::placement::has_loc_key(placement.loc_to_node@, rr, o),
    ensures
        forall|rr: int, o: int|
            0 <= rr < solved_locs@.len() && 0 <= o < solved_locs@[rr]@.len()
                ==> #[trigger] loc_row_at(r.all_locs@, rr, o),
        forall|k1: int, k2: int|
            0 <= k1 < k2 < r.all_locs@.len() ==> ((#[trigger] r.all_locs@[k1]).ovr.0 as int) < ((
            #[trigger] r.all_locs@[k2]).ovr.0 as int) || (r.all_locs@[k1].ovr
                == r.all_locs@[k2].ovr && (r.all_locs@[k1].ohr.0 as int) < (r.all_locs@[k2].ohr.0
                as int)),
        forall|k: int|
            0 <= k < r.all_locs@.len() ==> #[trigger] loc_row_sourced(
                placement.loc_to_node@,
                r.all_locs@[k],
            ),
        r.all_hops0@.len() == hops_total(
            placement.hops_by_level@,
            placement.hops_by_level@.len() as int,
        ),
        forall|l: int, i: int|
            0 <= l < placement.hops_by_level@.len() && 0 <= i
                < placement.hops_by_level@[l]@.len() ==> #[trigger] hop_row_for(
                r.all_hops0@,
                placement.hops_by_level@[l]@[i],
            ),
        forall|e: int|
            0 <= e < placement.hops_by_edge@.len() && (#[trigger] placement.hops_by_edge@[e]).1@.len()
                >= 1 ==> sentinel_row_for(
                r.all_hops@,
                placement.hops_by_edge@[e].0,
                placement.hops_by_edge@[e].1@.last(),
            ),
        r.all_locs@.len() == r.sol_by_loc@.len(),
        forall|k: int|
            0 <= k < r.all_locs@.len() ==> (#[trigger] r.all_locs@[k]).n.0 == k,
        forall|k: int|
            0 <= k < r.all_locs@.len() ==> (#[trigger] r.sol_by_loc@[k]) == ((
            r.all_locs@[k].ovr.0, r.all_locs@[k].ohr.0), r.all_locs@[k].n),
        forall|k: int|
            0 <= k < r.all_locs@.len() ==> ((#[trigger] r.all_locs@[k]).ovr.0 as int)
                < solved_locs@.len() && (r.all_locs@[k].ohr.0 as int)
                < solved_locs@[r.all_locs@[k].ovr.0 as int]@.len() && r.all_locs@[k].shr.0
                == solved_locs@[r.all_locs@[k].ovr.0 as int]@[r.all_locs@[k].ohr.0 as int],
        r.all_hops@.len() == r.sol_by_hop@.len(),
        forall|k: int|
            0 <= k < r.all_hops@.len() ==> (#[trigger] r.all_hops@[k]).n.0 == k,
        forall|k: int|
            0 <= k < r.all_hops@.len() ==> (#[trigger] r.sol_by_hop@[k]) == ((
            r.all_hops@[k].lvl.0, r.all_hops@[k].mhr.0, r.all_hops@[k].vl, r.all_hops@[k].wl),
            r.all_hops@[k].n),
        r.width_by_loc@.len() == 0,
        r.width_by_hop@.len() == 0,
{
    let mut all_locs: Vec<LocRow> = Vec::new();
    let mut sol_by_loc: Vec<((usize, usize), LocSol)> = Vec::new();
    let mut r: usize = 0;
    while r < solved_locs.len()
        invariant
            forall|rr: int, o: int|
                0 <= rr < solved_locs@.len() && 0 <= o < solved_locs@[rr]@.len()
                    ==> crate::placement::has_loc_key(placement.loc_to_node@, rr, o),
            r <= solved_locs@.len(),
            forall|rr: int, oo: int|
                0 <= rr < r && 0 <= oo < solved_locs@[rr]@.len() ==> #[trigger] loc_row_at(
                    all_locs@,
                    rr,
                    oo,
                ),
            forall|k: int| 0 <= k < all_locs@.len() ==> ((#[trigger] all_locs@[k]).ovr.0 as int) < r,
            forall|k1: int, k2: int|
                0 <= k1 < k2 < all_locs@.len() ==> ((#[trigger] all_locs@[k1]).ovr.0 as int) < ((
                #[trigger] all_locs@[k2]).ovr.0 as int) || (all_locs@[k1].ovr
                    == all_locs@[k2].ovr && (all_locs@[k1].ohr.0 as int) < (all_locs@[k2].ohr.0
                    as int)),
            forall|k: int|
                0 <= k < all_locs@.len() ==> #[trigger] loc_row_sourced(
                    placement.loc_to_node@,
                    all_locs@[k],
                ),
            all_locs@.len() == sol_by_loc@.len(),
            forall|k: int|
                0 <= k < all_locs@.len() ==> (#[trigger] all_locs@[k]).n.0 == k,
            forall|k: int|
                0 <= k < all_locs@.len() ==> (#[trigger] sol_by_loc@[k]) == ((
                all_locs@[k].ovr.0, all_locs@[k].ohr.0), all_locs@[k].n),
            forall|k: int|
                0 <= k < all_locs@.len() ==> ((#[trigger] all_locs@[k]).ovr.0 as int)
                    < solved_locs@.len() && (all_locs@[k].ohr.0 as int)
                    < solved_locs@[all_locs@[k].ovr.0 as int]@.len() && all_locs@[k].shr.0
                    == solved_locs@[all_locs@[k].ovr.0 as int]@[all_locs@[k].ohr.0 as int],
        decreases solved_locs@.len() - r,
    {
        let row = &solved_locs[r];
        let mut o: usize = 0;
        while o < row.len()
            invariant
                forall|rr: int, oo: int|
                    0 <= rr < solved_locs@.len() && 0 <= oo < solved_locs@[rr]@.len()
                        ==> crate::placement::has_loc_key(placement.loc_to_node@, rr, oo),
                r < solved_locs@.len(),
                row@ == solved_locs@[r as int]@,
                o <= row@.len(),
                forall|rr: int, oo: int|
                    0 <= rr < r && 0 <= oo < solved_locs@[rr]@.len() ==> #[trigger] loc_row_at(
                        all_locs@,
                        rr,
                        oo,
                    ),
                forall|oo: int|
                    0 <= oo < o ==> #[trigger] loc_row_at(all_locs@, r as int, oo),
                forall|k: int|
                    0 <= k < all_locs@.len() ==> ((#[trigger] all_locs@[k]).ovr.0 as int) < r || (
                    (all_locs@[k].ovr.0 as int) == r && (all_locs@[k].ohr.0 as int) < o),
                forall|k1: int, k2: int|
                    0 <= k1 < k2 < all_locs@.len() ==> ((#[trigger] all_locs@[k1]).ovr.0 as int)
                        < ((#[trigger] all_locs@[k2]).ovr.0 as int) || (all_locs@[k1].ovr
                        == all_locs@[k2].ovr && (all_locs@[k1].ohr.0 as int) < (
                    all_locs@[k2].ohr.0 as int)),
                forall|k: int|
                    0 <= k < all_locs@.len() ==> #[trigger] loc_row_sourced(
                        placement.loc_to_node@,
                        all_locs@[k],
                    ),
                all_locs@.len() == sol_by_loc@.len(),
                forall|k: int|
                    0 <= k < all_locs@.len() ==> (#[trigger] all_locs@[k]).n.0 == k,
                forall|k: int|
                    0 <= k < all_locs@.len() ==> (#[trigger] sol_by_loc@[k]) == ((
                    all_locs@[k].ovr.0, all_locs@[k].ohr.0), all_locs@[k].n),
                forall|k: int|
                    0 <= k < all_locs@.len() ==> ((#[trigger] all_locs@[k]).ovr.0 as int)
                        < solved_locs@.len() && (all_locs@[k].ohr.0 as int)
                        < solved_locs@[all_locs@[k].ovr.0 as int]@.len() && all_locs@[k].shr.0
                        == solved_locs@[all_locs@[k].ovr.0 as int]@[all_locs@[k].ohr.0 as int],
            decreases row@.len() - o,
        {
            let shr = row[o];
            let loc = match crate::placement::lookup_loc(placement, r, o) {
                Some(l) => l,
                None => {
                    proof {
                        assert(crate::placement::has_loc_key(
                            placement.loc_to_node@,
                            r as int,
                            o as int,
                        ));
                        assert(false);
                    }
                    Loc::Node(0)
                },
            };
            let n = LocSol(all_locs.len());
            let lr = LocRow {
                ovr: VerticalRank(r),
                ohr: OriginalHorizontalRank(o),
                shr: SolvedHorizontalRank(shr),
                loc,
                n,
            };
            let ghost pre = all_locs@;
            all_locs.push(lr);
            sol_by_loc.push(((r, o), n));
            proof {
                assert(all_locs@ =~= pre.push(lr));
                assert(all_locs@.last() == lr);
                assert forall|rr: int, oo: int|
                    0 <= rr < r && 0 <= oo < solved_locs@[rr]@.len() implies #[trigger] loc_row_at(
                    all_locs@,
                    rr,
                    oo,
                ) by {
                    assert(loc_row_at(pre, rr, oo));
                    let k = choose|k: int|
                        0 <= k < pre.len() && ((#[trigger] pre[k]).ovr.0 as int) == rr && (
                        pre[k].ohr.0 as int) == oo;
                    assert(all_locs@[k] == pre[k]);
                }
                assert forall|oo: int| 0 <= oo < o + 1 implies #[trigger] loc_row_at(
                    all_locs@,
                    r as int,
                    oo,
                ) by {
                    if oo < o {
                        assert(loc_row_at(pre, r as int, oo));
                        let k = choose|k: int|
                            0 <= k < pre.len() && ((#[trigger] pre[k]).ovr.0 as int) == r && (
                            pre[k].ohr.0 as int) == oo;
                        assert(all_locs@[k] == pre[k]);
                    } else {
                        assert(all_locs@[pre.len() as int] == lr);
                    }
                }
                assert forall|k: int|
                    0 <= k < all_locs@.len() implies #[trigger] loc_row_sourced(
                    placement.loc_to_node@,
                    all_locs@[k],
                ) by {
                    if k < pre.len() {
                        assert(all_locs@[k] == pre[k]);
                    } else {
                        assert(all_locs@[k] == lr);
                    }
                }
            }
            o = o + 1;
        }
        r = r + 1;
    }
    let mut all_hops0: Vec<HopRow> = Vec::new();
    let mut l: usize = 0;
    while l < placement.hops_by_level.len()
        invariant
            l <= placement.hops_by_level@.len(),
            forall|k: int|
                0 <= k < all_hops0@.len() ==> (#[trigger] all_hops0@[k]).n.0 == k,
            all_hops0@.len() == hops_total(placement.hops_by_level@, l as int),
            forall|ll: int, ii: int|
                0 <= ll < l && 0 <= ii < placement.hops_by_level@[ll]@.len()
                    ==> #[trigger] hop_row_for(all_hops0@, placement.hops_by_level@[ll]@[ii]),
        decreases placement.hops_by_level@.len() - l,
    {
        let hops = &placement.hops_by_level[l];
        let mut i: usize = 0;
        while i < hops.len()
            invariant
                l < placement.hops_by_level@.len(),
                hops@ == placement.hops_by_level@[l as int]@,
                i <= hops@.len(),
                forall|k: int|
                    0 <= k < all_hops0@.len() ==> (#[trigger] all_hops0@[k]).n.0 == k,
                all_hops0@.len() == hops_total(placement.hops_by_level@, l as int) + i,
                forall|ll: int, ii: int|
                    0 <= ll < l && 0 <= ii < placement.hops_by_level@[ll]@.len()
                        ==> #[trigger] hop_row_for(all_hops0@, placement.hops_by_level@[ll]@[ii]),
                forall|ii: int|
                    0 <= ii < i ==> #[trigger] hop_row_for(
                        all_hops0@,
                        placement.hops_by_level@[l as int]@[ii],
                    ),
            decreases hops@.len() - i,
        {
            let h = hops[i];
            let n = HopSol(all_hops0.len());
            let hr = HopRow { lvl: h.lvl, mhr: h.mhr, nhr: h.nhr, vl: h.vl, wl: h.wl, n };
            let ghost pre = all_hops0@;
            all_hops0.push(hr);
            proof {
                assert(all_hops0@ =~= pre.push(hr));
                assert(all_hops0@.last() == hr);
                assert forall|ll: int, ii: int|
                    0 <= ll < l && 0 <= ii < placement.hops_by_level@[ll]@.len() implies #[trigger] hop_row_for(
                    all_hops0@,
                    placement.hops_by_level@[ll]@[ii],
                ) by {
                    assert(hop_row_for(pre, placement.hops_by_level@[ll]@[ii]));
                    let hh = placement.hops_by_level@[ll]@[ii];
                    let k = choose|k: int|
                        0 <= k < pre.len() && (#[trigger] pre[k]).lvl == hh.lvl && pre[k].mhr
                            == hh.mhr && pre[k].nhr == hh.nhr && pre[k].vl == hh.vl && pre[k].wl
                            == hh.wl;
                    assert(all_hops0@[k] == pre[k]);
                }
                assert forall|ii: int| 0 <= ii < i + 1 implies #[trigger] hop_row_for(
                    all_hops0@,
                    placement.hops_by_level@[l as int]@[ii],
                ) by {
                    if ii < i {
                        assert(hop_row_for(pre, placement.hops_by_level@[l as int]@[ii]));
                        let hh = placement.hops_by_level@[l as int]@[ii];
                        let k = choose|k: int|
                            0 <= k < pre.len() && (#[trigger] pre[k]).lvl == hh.lvl && pre[k].mhr
                                == hh.mhr && pre[k].nhr == hh.nhr && pre[k].vl == hh.vl
                                && pre[k].wl == hh.wl;
                        assert(all_hops0@[k] == pre[k]);
                    } else {
                        assert(all_hops0@[pre.len() as int] == hr);
                    }
                }
            }
            i = i + 1;
        }
        l = l + 1;
    }
    // The full control-point list: the hops again, then one sentinel per
    // edge, placed one rank below its last hop with an unreachable lower
    // position.
    let mut all_hops: Vec<HopRow> = Vec::new();
    let mut sol_by_hop: Vec<((usize, usize, usize, usize), HopSol)> = Vec::new();
    let mut k: usize = 0;
    while k < all_hops0.len()
        invariant
            k <= all_hops0@.len(),
            all_hops@.len() == k,
            all_hops@.len() == sol_by_hop@.len(),
            forall|x: int|
                0 <= x < all_hops@.len() ==> (#[trigger] all_hops@[x]).n.0 == x,
            forall|x: int|
                0 <= x < all_hops@.len() ==> (#[trigger] sol_by_hop@[x]) == ((
                all_hops@[x].lvl.0, all_hops@[x].mhr.0, all_hops@[x].vl, all_hops@[x].wl),
                all_hops@[x].n),
        decreases all_hops0@.len() - k,
    {
        let h0 = all_hops0[k];
        let n = HopSol(all_hops.len());
        let h = HopRow { lvl: h0.lvl, mhr: h0.mhr, nhr: h0.nhr, vl: h0.vl, wl: h0.wl, n };
        all_hops.push(h);
        sol_by_hop.push(((h.lvl.0, h.mhr.0, h.vl, h.wl), n));
        k = k + 1;
    }
    let mut e: usize = 0;
    while e < placement.hops_by_edge.len()
        invariant
            e <= placement.hops_by_edge@.len(),
            all_hops@.len() == sol_by_hop@.len(),
            forall|x: int|
                0 <= x < all_hops@.len() ==> (#[trigger] all_hops@[x]).n.0 == x,
            forall|x: int|
                0 <= x < all_hops@.len() ==> (#[trigger] sol_by_hop@[x]) == ((
                all_hops@[x].lvl.0, all_hops@[x].mhr.0, all_hops@[x].vl, all_hops@[x].wl),
                all_hops@[x].n),
            forall|x: int|
                0 <= x < e && (#[trigger] placement.hops_by_edge@[x]).1@.len() >= 1
                    ==> sentinel_row_for(
                    all_hops@,
                    placement.hops_by_edge@[x].0,
                    placement.hops_by_edge@[x].1@.last(),
                ),
        decreases placement.hops_by_edge@.len() - e,
    {
        let entry = &placement.hops_by_edge[e];
        let hl = entry.1.len();
        if hl > 0 {
            let last = entry.1[hl - 1];
            let (lvl, mhr, nhr) = last;
            if lvl.0 < usize::MAX {
                let n = HopSol(all_hops.len());
                let h = HopRow {
                    lvl: VerticalRank(lvl.0 + 1),
                    mhr: nhr,
                    nhr: OriginalHorizontalRank(usize::MAX - mhr.0),
                    vl: entry.0.0,
                    wl: entry.0.1,
                    n,
                };
                let ghost pre = all_hops@;
                all_hops.push(h);
                sol_by_hop.push(((h.lvl.0, h.mhr.0, h.vl, h.wl), n));
                proof {
                    assert(all_hops@ =~= pre.push(h));
                    assert(all_hops@.last() == h);
                    assert forall|x: int|
                        0 <= x < e + 1 && (#[trigger] placement.hops_by_edge@[x]).1@.len()
                            >= 1 implies sentinel_row_for(
                        all_hops@,
                        placement.hops_by_edge@[x].0,
                        placement.hops_by_edge@[x].1@.last(),
                    ) by {
                        let key = placement.hops_by_edge@[x].0;
                        let lh = placement.hops_by_edge@[x].1@.last();
                        if x < e {
                            if (lh.0.0 as int) < usize::MAX {
                                assert(sentinel_row_for(pre, key, lh));
                                let k = choose|k: int|
                                    0 <= k < pre.len() && ((#[trigger] pre[k]).lvl.0 as int) == (
                                    lh.0.0 as int) + 1 && pre[k].mhr == lh.2 && (pre[k].nhr.0
                                        as int) == usize::MAX - (lh.1.0 as int) && pre[k].vl
                                        == key.0 && pre[k].wl == key.1;
                                assert(all_hops@[k] == pre[k]);
                            }
                        } else {
                            assert(all_hops@[pre.len() as int] == h);
                        }
                    }
                }
            }
        }
        e = e + 1;
    }
    LayoutProblem {
        all_locs,
        all_hops0,
        all_hops,
        sol_by_loc,
        sol_by_hop,
        width_by_loc: Vec::new(),
        width_by_hop: Vec::new(),
    }
}


/// The measured width of the location, if one was recorded (first match).
pub open spec fn measured_width(wbl: Seq<((usize, usize), u64)>, r: int, o: int) -> Option<u64>
    decreases wbl.len(),
{
    if wbl.len() == 0 {
        None
    } else if (wbl[0].0.0 as int) == r && (wbl[0].0.1 as int) == o {
        Some(wbl[0].1)
    } else {
        measured_width(wbl.skip(1), r, o)
    }
}

/// The measured widths of the hop's label halves, or the default pair
/// (first match).
pub open spec fn hop_widths(
    wbh: Seq<((usize, usize, usize, usize), (u64, u64))>,
    lvl: int,
    mhr: int,
    vl: int,
    wl: int,
) -> (u64, u64)
    decreases wbh.len(),
{
    if wbh.len() == 0 {
        (DEFAULT_HOP_WIDTH, DEFAULT_HOP_WIDTH)
    } else if (wbh[0].0.0 as int) == lvl && (wbh[0].0.1 as int) == mhr && (wbh[0].0.2 as int)
        == vl && (wbh[0].0.3 as int) == wl {
        wbh[0].1
    } else {
        hop_widths(wbh.skip(1), lvl, mhr, vl, wl)
    }
}

/// The dense id recorded for `(rank, position)` (first match).
pub open spec fn loc_sol_spec(sbl: Seq<((usize, usize), LocSol)>, r: int, o: int) -> Option<
    LocSol,
>
    decreases sbl.len(),
{
    if sbl.len() == 0 {
        None
    } else if (sbl[0].0.0 as int) == r && (sbl[0].0.1 as int) == o {
        Some(sbl[0].1)
    } else {
        loc_sol_spec(sbl.skip(1), r, o)
    }
}

/// The dense id recorded for a hop key (first match).
pub open spec fn hop_sol_spec(
    sbh: Seq<((usize, usize, usize, usize), HopSol)>,
    lvl: int,
    mhr: int,
    vl: int,
    wl: int,
) -> Option<HopSol>
    decreases sbh.len(),
{
    if sbh.len() == 0 {
        None
    } else if (sbh[0].0.0 as int) == lvl && (sbh[0].0.1 as int) == mhr && (sbh[0].0.2 as int)
        == vl && (sbh[0].0.3 as int) == wl {
        Some(sbh[0].1)
    } else {
        hop_sol_spec(sbh.skip(1), lvl, mhr, vl, wl)
    }
}

/// What stands at `(rank, position)` (first match).
pub open spec fn loc_at_spec(
    l2n: Seq<((usize, usize), Loc<usize, usize>)>,
    r: int,
    o: int,
) -> Option<Loc<usize, usize>>
    decreases l2n.len(),
{
    if l2n.len() == 0 {
        None
    } else if (l2n[0].0.0 as int) == r && (l2n[0].0.1 as int) == o {
        Some(l2n[0].1)
    } else {
        loc_at_spec(l2n.skip(1), r, o)
    }
}

/// Look up the measured width of a location.
fn measured_width_exec(wbl: &Vec<((usize, usize), u64)>, r: usize, o: usize) -> (res: Option<u64>)
    ensures
        res == measured_width(wbl@, r as int, o as int),
{
    let mut i: usize = 0;
    proof {
        assert(wbl@.skip(0) =~= wbl@);
    }
    while i < wbl.len()
        invariant
            i <= wbl@.len(),
            measured_width(wbl@, r as int, o as int) == measured_width(
                wbl@.skip(i as int),
                r as int,
                o as int,
            ),
        decreases wbl@.len() - i,
    {
        let e = &wbl[i];
        proof {
            assert(wbl@.skip(i as int)[0] == wbl@[i as int]);
            assert(wbl@.skip(i as int).skip(1) =~= wbl@.skip(i as int + 1));
        }
        if e.0.0 == r && e.0.1 == o {
            return Some(e.1);
        }
        i = i + 1;
    }
    proof {
        assert(wbl@.skip(wbl@.len() as int) =~= Seq::<((usize, usize), u64)>::empty());
    }
    None
}

/// Look up the label-half widths of a hop, with the default fallback.
fn hop_widths_exec(
    wbh: &Vec<((usize, usize, usize, usize), (u64, u64))>,
    lvl: usize,
    mhr: usize,
    vl: usize,
    wl: usize,
) -> (res: (u64, u64))
    ensures
        res == hop_widths(wbh@, lvl as int, mhr as int, vl as int, wl as int),
{
    let mut i: usize = 0;
    proof {
        assert(wbh@.skip(0) =~= wbh@);
    }
    while i < wbh.len()
        invariant
            i <= wbh@.len(),
            hop_widths(wbh@, lvl as int, mhr as int, vl as int, wl as int) == hop_widths(
                wbh@.skip(i as int),
                lvl as int,
                mhr as int,
                vl as int,
                wl as int,
            ),
        decreases wbh@.len() - i,
    {
        let e = &wbh[i];
        proof {
            assert(wbh@.skip(i as int)[0] == wbh@[i as int]);
            assert(wbh@.skip(i as int).skip(1) =~= wbh@.skip(i as int + 1));
        }
        if e.0.0 == lvl && e.0.1 == mhr && e.0.2 == vl && e.0.3 == wl {
            return e.1;
        }
        i = i + 1;
    }
    proof {
        assert(wbh@.skip(wbh@.len() as int) =~= Seq::<
            ((usize, usize, usize, usize), (u64, u64)),
        >::empty());
    }
    (DEFAULT_HOP_WIDTH, DEFAULT_HOP_WIDTH)
}

/// Look up the dense id of `(rank, position)`.
fn loc_sol_exec(sbl: &Vec<((usize, usize), LocSol)>, r: usize, o: usize) -> (res: Option<LocSol>)
    ensures
        res == loc_sol_spec(sbl@, r as int, o as int),
{
    let mut i: usize = 0;
    proof {
        assert(sbl@.skip(0) =~= sbl@);
    }
    while i < sbl.len()
        invariant
            i <= sbl@.len(),
            loc_sol_spec(sbl@, r as int, o as int) == loc_sol_spec(
                sbl@.skip(i as int),
                r as int,
                o as int,
            ),
        decreases sbl@.len() - i,
    {
        let e = &sbl[i];
        proof {
            assert(sbl@.skip(i as int)[0] == sbl@[i as int]);
            assert(sbl@.skip(i as int).skip(1) =~= sbl@.skip(i as int + 1));
        }
        if e.0.0 == r && e.0.1 == o {
            return Some(e.1);
        }
        i = i + 1;
    }
    proof {
        assert(sbl@.skip(sbl@.len() as int) =~= Seq::<((usize, usize), LocSol)>::empty());
    }
    None
}

/// Look up the dense id of a hop key.
fn hop_sol_exec(
    sbh: &Vec<((usize, usize, usize, usize), HopSol)>,
    lvl: usize,
    mhr: usize,
    vl: usize,
    wl: usize,
) -> (res: Option<HopSol>)
    ensures
        res == hop_sol_spec(sbh@, lvl as int, mhr as int, vl as int, wl as int),
{
    let mut i: usize = 0;
    proof {
        assert(sbh@.skip(0) =~= sbh@);
    }
    while i < sbh.len()
        invariant
            i <= sbh@.len(),
            hop_sol_spec(sbh@, lvl as int, mhr as int, vl as int, wl as int) == hop_sol_spec(
                sbh@.skip(i as int),
                lvl as int,
                mhr as int,
                vl as int,
                wl as int,
            ),
        decreases sbh@.len() - i,
    {
        let e = &sbh[i];
        proof {
            assert(sbh@.skip(i as int)[0] == sbh@[i as int]);
            assert(sbh@.skip(i as int).skip(1) =~= sbh@.skip(i as int + 1));
        }
        if e.0.0 == lvl && e.0.1 == mhr && e.0.2 == vl && e.0.3 == wl {
            return Some(e.1);
        }
        i = i + 1;
    }
    proof {
        assert(sbh@.skip(sbh@.len() as int) =~= Seq::<
            ((usize, usize, usize, usize), HopSol),
        >::empty());
    }
    None
}

/// What stands at `(rank, position)`, by first match in the location map.
fn loc_at_exec(
    l2n: &Vec<((usize, usize), Loc<usize, usize>)>,
    r: usize,
    o: usize,
) -> (res: Option<Loc<usize, usize>>)
    ensures
        res == loc_at_spec(l2n@, r as int, o as int),
{
    let mut i: usize = 0;
    proof {
        assert(l2n@.skip(0) =~= l2n@);
    }
    while i < l2n.len()
        invariant
            i <= l2n@.len(),
            loc_at_spec(l2n@, r as int, o as int) == loc_at_spec(
                l2n@.skip(i as int),
                r as int,
                o as int,
            ),
        decreases l2n@.len() - i,
    {
        let e = &l2n[i];
        proof {
            assert(l2n@.skip(i as int)[0] == l2n@[i as int]);
            assert(l2n@.skip(i as int).skip(1) =~= l2n@.skip(i as int + 1));
        }
        if e.0.0 == r && e.0.1 == o {
            return Some(e.1);
        }
        i = i + 1;
    }
    proof {
        assert(l2n@.skip(l2n@.len() as int) =~= Seq::<
            ((usize, usize), Loc<usize, usize>),
        >::empty());
    }
    None
}

/// Whether the rows hold a two-term row of exactly this shape.
fn has_two_row(
    csp: &Constraints<AnySol>,
    lo: i64,
    c0: i64,
    s0: AnySol,
    c1: i64,
    s1: AnySol,
) -> (r: bool)
    ensures
        r == exists|i: int|
            0 <= i < csp.constrs@.len() && is_two_row(
                #[trigger] csp.constrs@[i],
                lo as int,
                c0 as int,
                s0,
                c1 as int,
                s1,
                None,
            ),
{
    let mut i: usize = 0;
    while i < csp.constrs.len()
        invariant
            i <= csp.constrs@.len(),
            forall|x: int|
                0 <= x < i ==> !is_two_row(
                    #[trigger] csp.constrs@[x],
                    lo as int,
                    c0 as int,
                    s0,
                    c1 as int,
                    s1,
                    None,
                ),
        decreases csp.constrs@.len() - i,
    {
        let row = &csp.constrs[i];
        if row.lower == lo && matches!(row.upper, Option::None) && row.comb.len() == 2 {
            let m0 = row.comb[0];
            let m1 = row.comb[1];
            if m0.coeff == c0 && m0.var.sol.eq_sol(&s0) && m1.coeff == c1 && m1.var.sol.eq_sol(
                &s1,
            ) {
                return true;
            }
        }
        i = i + 1;
    }
    false
}

/// Whether a symmetry penalty stands between the two centerlines: an
/// auxiliary variable carrying weight 100 on the quadratic diagonal and
/// the equality `t - a + b == 0` among the rows.
fn has_sym_pair(
    csp: &Constraints<AnySol>,
    pd: &Vec<Monomial<AnySol>>,
    a: AnySol,
    b: AnySol,
) -> (r: bool)
    ensures
        r == exists|i: int, j: int|
            0 <= i < csp.constrs@.len() && 0 <= j < pd@.len() && sym_row_shape(
                #[trigger] csp.constrs@[i],
                #[trigger] pd@[j],
                a,
                b,
            ),
{
    let mut i: usize = 0;
    while i < csp.constrs.len()
        invariant
            i <= csp.constrs@.len(),
            forall|x: int, j: int|
                0 <= x < i && 0 <= j < pd@.len() ==> !sym_row_shape(
                    #[trigger] csp.constrs@[x],
                    #[trigger] pd@[j],
                    a,
                    b,
                ),
        decreases csp.constrs@.len() - i,
    {
        let row = &csp.constrs[i];
        let mut found = false;
        if row.lower == 0 && matches!(row.upper, Option::Some(0i64)) && row.comb.len() == 3 {
            let m0 = row.comb[0];
            let m1 = row.comb[1];
            let m2 = row.comb[2];
            if m0.coeff == 1 && m1.coeff == -1 && m1.var.sol.eq_sol(&a) && m2.coeff == 1
                && m2.var.sol.eq_sol(&b) {
                let mut j: usize = 0;
                while j < pd.len()
                    invariant
                        j <= pd@.len(),
                        i < csp.constrs@.len(),
                        csp.constrs@[i as int].comb@.len() == 3,
                        csp.constrs@[i as int].comb@[0] == m0,
                        csp.constrs@[i as int].lower == 0,
                        csp.constrs@[i as int].upper == Some(0i64),
                        csp.constrs@[i as int].comb@[1].coeff == -1,
                        csp.constrs@[i as int].comb@[1].var.sol == a,
                        csp.constrs@[i as int].comb@[2].coeff == 1,
                        csp.constrs@[i as int].comb@[2].var.sol == b,
                        m0.coeff == 1,
                        forall|y: int|
                            0 <= y < j ==> !sym_row_shape(
                                csp.constrs@[i as int],
                                #[trigger] pd@[y],
                                a,
                                b,
                            ),
                    decreases pd@.len() - j,
                {
                    let pm = pd[j];
                    if pm.coeff == 100 && pm.var.index == m0.var.index && pm.var.sol.eq_sol(
                        &m0.var.sol,
                    ) {
                        proof {
                            assert(sym_row_shape(csp.constrs@[i as int], pd@[j as int], a, b));
                        }
                        return true;
                    }
                    proof {
                        assert(pd@[j as int].var != csp.constrs@[i as int].comb@[0].var
                            || pd@[j as int].coeff != 100);
                        assert(!sym_row_shape(csp.constrs@[i as int], pd@[j as int], a, b));
                    }
                    j = j + 1;
                }
            }
        }
        proof {
            assert forall|j: int| 0 <= j < pd@.len() implies !sym_row_shape(
                csp.constrs@[i as int],
                #[trigger] pd@[j],
                a,
                b,
            ) by {}
        }
        i = i + 1;
    }
    false
}

/// The row is the symmetry equality of `pd`'s auxiliary variable between
/// `a` and `b`.
pub open spec fn sym_row_shape(
    row: Constraint<AnySol>,
    pm: Monomial<AnySol>,
    a: AnySol,
    b: AnySol,
) -> bool {
    &&& row.lower == 0
    &&& row.upper == Some(0i64)
    &&& row.comb@.len() == 3
    &&& row.comb@[0].coeff == 1
    &&& row.comb@[0].var == pm.var
    &&& row.comb@[1].coeff == -1
    &&& row.comb@[1].var.sol == a
    &&& row.comb@[2].coeff == 1
    &&& row.comb@[2].var.sol == b
    &&& pm.coeff == 100
}


/// The variables, rows, quadratic diagonal, linear objective and per-rank
/// top offsets of the positioning program.
#[derive(Debug)]
pub struct GeometryProblem {
    pub vars: Vars<AnySol>,
    pub csp: Constraints<AnySol>,
    pub pd: Vec<Monomial<AnySol>>,
    pub q: Vec<Monomial<AnySol>>,
    pub ts: Vec<u64>,
    pub root_n: LocSol,
}

/// The hop key of a hop row.
pub open spec fn hop_key(h: HopRow) -> (int, int, int, int) {
    (h.lvl.0 as int, h.mhr.0 as int, h.vl as int, h.wl as int)
}


/// The hop's centerline is held inside the root frame by two rows.
pub open spec fn hop_frame_ok(
    csp: Seq<Constraint<AnySol>>,
    wbh: Seq<((usize, usize, usize, usize), (u64, u64))>,
    root_n: LocSol,
    h: HopRow,
) -> bool {
    let aw = hop_widths(wbh, h.lvl.0 as int, h.mhr.0 as int, h.vl as int, h.wl as int).0;
    let pw = hop_widths(wbh, h.lvl.0 as int, h.mhr.0 as int, h.vl as int, h.wl as int).1;
    &&& (exists|i: int|
        0 <= i < csp.len() && is_two_row(
            #[trigger] csp[i],
            aw as int,
            -1,
            AnySol::L(root_n),
            1,
            AnySol::S(h.n),
            None,
        ))
    &&& (exists|i: int|
        0 <= i < csp.len() && is_two_row(
            #[trigger] csp[i],
            pw as int,
            -1,
            AnySol::S(h.n),
            1,
            AnySol::R(root_n),
            None,
        ))
}

/// When the hop starts on a node, its centerline is held inside that
/// node by two rows.
pub open spec fn hop_contain_ok(
    csp: Seq<Constraint<AnySol>>,
    wbh: Seq<((usize, usize, usize, usize), (u64, u64))>,
    l2n: Seq<((usize, usize), Loc<usize, usize>)>,
    sbl: Seq<((usize, usize), LocSol)>,
    h: HopRow,
) -> bool {
    let aw = hop_widths(wbh, h.lvl.0 as int, h.mhr.0 as int, h.vl as int, h.wl as int).0;
    let pw = hop_widths(wbh, h.lvl.0 as int, h.mhr.0 as int, h.vl as int, h.wl as int).1;
    match loc_at_spec(l2n, h.lvl.0 as int, h.mhr.0 as int) {
        Some(Loc::Node(_)) => {
            match loc_sol_spec(sbl, h.lvl.0 as int, h.mhr.0 as int) {
                Some(nd) => (exists|i: int|
                    0 <= i < csp.len() && is_two_row(
                        #[trigger] csp[i],
                        SEP + aw,
                        1,
                        AnySol::S(h.n),
                        -1,
                        AnySol::L(nd),
                        None,
                    )) && (exists|i: int|
                    0 <= i < csp.len() && is_two_row(
                        #[trigger] csp[i],
                        SEP + pw,
                        -1,
                        AnySol::S(h.n),
                        1,
                        AnySol::R(nd),
                        None,
                    )),
                None => true,
            }
        },
        _ => true,
    }
}

/// When the hop has a successor control point, a quadratic symmetry
/// penalty ties their centerlines.
pub open spec fn hop_sym_ok(
    csp: Seq<Constraint<AnySol>>,
    pd: Seq<Monomial<AnySol>>,
    sbh: Seq<((usize, usize, usize, usize), HopSol)>,
    nlocs: int,
    h: HopRow,
) -> bool {
    (h.nhr.0 as int) <= nlocs && (h.lvl.0 as int) < usize::MAX ==> (match hop_sol_spec(
        sbh,
        h.lvl.0 as int + 1,
        h.nhr.0 as int,
        h.vl as int,
        h.wl as int,
    ) {
        Some(nd) => exists|i: int, j: int|
            0 <= i < csp.len() && 0 <= j < pd.len() && sym_row_shape(
                #[trigger] csp[i],
                #[trigger] pd[j],
                AnySol::S(h.n),
                AnySol::S(nd),
            ),
        None => true,
    })
}

/// A non-negativity row stands for the variable: `0 <= x`.
pub open spec fn nonneg_ok(csp: Seq<Constraint<AnySol>>, i: usize, s: AnySol) -> bool {
    exists|r: int|
        0 <= r < csp.len() && (#[trigger] csp[r]).lower == 0 && csp[r].upper is None
            && csp[r].comb@.len() == 1 && csp[r].comb@[0].coeff == 1 && csp[r].comb@[0].var.index
            == i && csp[r].comb@[0].var.sol == s
}

/// The diagonal entry carries weight 100 and is tied by an equality row
/// to the difference of two centerlines: only symmetry penalties carry
/// quadratic cost.
pub open spec fn pd_entry_ok(csp: Seq<Constraint<AnySol>>, pm: Monomial<AnySol>) -> bool {
    pm.coeff == 100 && exists|i: int, a: HopSol, b: HopSol|
        0 <= i < csp.len() && #[trigger] sym_row_shape(csp[i], pm, AnySol::S(a), AnySol::S(b))
}

/// Whether the rows hold the variable's non-negativity row.
fn has_nonneg(csp: &Constraints<AnySol>, i: usize, s: AnySol) -> (r: bool)
    ensures
        r == nonneg_ok(csp.constrs@, i, s),
{
    let mut x: usize = 0;
    while x < csp.constrs.len()
        invariant
            x <= csp.constrs@.len(),
            forall|y: int|
                0 <= y < x ==> !((#[trigger] csp.constrs@[y]).lower == 0 && csp.constrs@[y].upper
                    is None && csp.constrs@[y].comb@.len() == 1 && csp.constrs@[y].comb@[0].coeff
                    == 1 && csp.constrs@[y].comb@[0].var.index == i
                    && csp.constrs@[y].comb@[0].var.sol == s),
        decreases csp.constrs@.len() - x,
    {
        let row = &csp.constrs[x];
        if row.lower == 0 && matches!(row.upper, Option::None) && row.comb.len() == 1 {
            let m0 = row.comb[0];
            if m0.coeff == 1 && m0.var.index == i && m0.var.sol.eq_sol(&s) {
                return true;
            }
        }
        x = x + 1;
    }
    false
}

/// Whether the diagonal entry is tied to a symmetry equality between two
/// centerlines.
fn has_pd_tie(csp: &Constraints<AnySol>, pm: Monomial<AnySol>) -> (r: bool)
    requires
        pm.coeff == 100,
    ensures
        r == pd_entry_ok(csp.constrs@, pm),
{
    let mut x: usize = 0;
    while x < csp.constrs.len()
        invariant
            pm.coeff == 100,
            x <= csp.constrs@.len(),
            forall|y: int, a: HopSol, b: HopSol|
                0 <= y < x ==> !#[trigger] sym_row_shape(
                    csp.constrs@[y],
                    pm,
                    AnySol::S(a),
                    AnySol::S(b),
                ),
        decreases csp.constrs@.len() - x,
    {
        let row = &csp.constrs[x];
        if row.lower == 0 && matches!(row.upper, Option::Some(0i64)) && row.comb.len() == 3 {
            let m0 = row.comb[0];
            let m1 = row.comb[1];
            let m2 = row.comb[2];
            let m1s = matches!(m1.var.sol, AnySol::S(_));
            let m2s = matches!(m2.var.sol, AnySol::S(_));
            if m0.coeff == 1 && m0.var.index == pm.var.index && m0.var.sol.eq_sol(&pm.var.sol)
                && m1.coeff == -1 && m1s && m2.coeff == 1 && m2s {
                proof {
                    let a = m1.var.sol->S_0;
                    let b = m2.var.sol->S_0;
                    assert(sym_row_shape(
                        csp.constrs@[x as int],
                        pm,
                        AnySol::S(a),
                        AnySol::S(b),
                    ));
                }
                return true;
            }
        }
        proof {
            assert forall|a: HopSol, b: HopSol| !#[trigger] sym_row_shape(
                csp.constrs@[x as int],
                pm,
                AnySol::S(a),
                AnySol::S(b),
            ) by {}
        }
        x = x + 1;
    }
    false
}

/// Sum the label widths of the first hops out of and the last hops into
/// the node; `None` when a sum overflows.
fn node_bundle_widths(
    hbe: &Vec<((usize, usize), Vec<(VerticalRank, OriginalHorizontalRank, OriginalHorizontalRank)>)>,
    wbh: &Vec<((usize, usize, usize, usize), (u64, u64))>,
    x: usize,
) -> (r: Option<(u64, u64)>)
    ensures
        match r {
            Some(w) => w.0 as int == out_width_upto(hbe@, wbh@, x, hbe@.len() as int) && w.1
                as int == in_width_upto(hbe@, wbh@, x, hbe@.len() as int),
            None => true,
        },
{
    let mut out_width: u64 = 0;
    let mut in_width: u64 = 0;
    let mut e: usize = 0;
    while e < hbe.len()
        invariant
            e <= hbe@.len(),
            out_width as int == out_width_upto(hbe@, wbh@, x, e as int),
            in_width as int == in_width_upto(hbe@, wbh@, x, e as int),
        decreases hbe@.len() - e,
    {
        let entry = &hbe[e];
        let hl = entry.1.len();
        if hl > 0 {
            if entry.0.0 == x {
                let first = entry.1[0];
                let w = hop_widths_exec(wbh, first.0.0, first.1.0, entry.0.0, entry.0.1);
                let sum = match w.0.checked_add(w.1) {
                    Some(sw) => sw,
                    None => {
                        return None;
                    },
                };
                out_width = match out_width.checked_add(sum) {
                    Some(nw) => nw,
                    None => {
                        return None;
                    },
                };
            }
            if entry.0.1 == x {
                let last = entry.1[hl - 1];
                let w = hop_widths_exec(wbh, last.0.0, last.1.0, entry.0.0, entry.0.1);
                let sum = match w.0.checked_add(w.1) {
                    Some(sw) => sw,
                    None => {
                        return None;
                    },
                };
                in_width = match in_width.checked_add(sum) {
                    Some(nw) => nw,
                    None => {
                        return None;
                    },
                };
            }
        }
        e = e + 1;
    }
    Some((out_width, in_width))
}

/// Largest label count among the vertical-edge label rows whose source is
/// `x`, over the first `n` rows; never below one, so a node without
/// labeled out-edges contributes no height.
pub open spec fn node_label_max_upto(
    labels: Seq<crate::vcg::EdgeLabelRow>,
    x: usize,
    n: int,
) -> int
    decreases n,
{
    if n <= 0 {
        1
    } else {
        let prev = node_label_max_upto(labels, x, n - 1);
        let c: int = if labels[n - 1].src == x {
            labels[n - 1].labels@.len() as int
        } else {
            0
        };
        if c > prev {
            c
        } else {
            prev
        }
    }
}

/// Height of rank `r` over the first `n` placement entries: the largest
/// `node_label_max - 1` among nodes placed at that rank, and zero when
/// none is.
pub open spec fn rank_height_upto(
    ntl: Seq<(Loc<usize, usize>, (usize, usize))>,
    labels: Seq<crate::vcg::EdgeLabelRow>,
    r: int,
    n: int,
) -> int
    decreases n,
{
    if n <= 0 {
        0
    } else {
        let prev = rank_height_upto(ntl, labels, r, n - 1);
        let h: int = match ntl[n - 1].0 {
            Loc::Node(x) => if ntl[n - 1].1.0 == r {
                node_label_max_upto(labels, x, labels.len() as int) - 1
            } else {
                0
            },
            Loc::Hop(_, _, _) => 0,
        };
        if h > prev {
            h
        } else {
            prev
        }
    }
}

/// Height of rank `r` over the whole placement.
pub open spec fn rank_height(
    ntl: Seq<(Loc<usize, usize>, (usize, usize))>,
    labels: Seq<crate::vcg::EdgeLabelRow>,
    r: int,
) -> int {
    rank_height_upto(ntl, labels, r, ntl.len() as int)
}

/// Some edge of the placement touches node `x`.
pub open spec fn node_in_edges(
    hbe: Seq<
        ((usize, usize), Vec<(VerticalRank, OriginalHorizontalRank, OriginalHorizontalRank)>),
    >,
    x: usize,
) -> bool {
    exists|e: int| 0 <= e < hbe.len() && ((#[trigger] hbe[e]).0.0 == x || hbe[e].0.1 == x)
}

/// The hop keeps clear of an edge-incident node standing at the
/// neighboring solved position of its own rank: a gap of `SEP` plus the
/// hop's action-side label width on either flank.
pub open spec fn hop_node_sep_ok(
    constrs: Seq<Constraint<AnySol>>,
    wbh: Seq<((usize, usize, usize, usize), (u64, u64))>,
    hbe: Seq<
        ((usize, usize), Vec<(VerticalRank, OriginalHorizontalRank, OriginalHorizontalRank)>),
    >,
    solved: Seq<Vec<usize>>,
    h: HopRow,
    other: LocRow,
) -> bool {
    let aw = hop_widths(wbh, h.lvl.0 as int, h.mhr.0 as int, h.vl as int, h.wl as int).0 as int;
    let shr = crate::crossing::shr_at(solved, h.lvl.0 as int, h.mhr.0 as int);
    &&& ((match other.loc {
        Loc::Node(x) => other.ovr.0 == h.lvl.0 && node_in_edges(hbe, x) && (other.shr.0 as int)
            == shr - 1,
        Loc::Hop(_, _, _) => false,
    }) ==> (exists|i: int|
        0 <= i < constrs.len() && is_two_row(
            #[trigger] constrs[i],
            SEP as int + aw,
            1,
            AnySol::S(h.n),
            -1,
            AnySol::L(other.n),
            None,
        )))
    &&& ((match other.loc {
        Loc::Node(x) => other.ovr.0 == h.lvl.0 && node_in_edges(hbe, x) && (other.shr.0 as int)
            == shr + 1,
        Loc::Hop(_, _, _) => false,
    }) ==> (exists|i: int|
        0 <= i < constrs.len() && is_two_row(
            #[trigger] constrs[i],
            SEP as int + aw,
            -1,
            AnySol::S(h.n),
            1,
            AnySol::L(other.n),
            None,
        )))
}

/// Two hops of one rank at neighboring solved positions keep a double gap
/// plus their facing label widths between their centerlines.
pub open spec fn hop_hop_sep_ok(
    constrs: Seq<Constraint<AnySol>>,
    wbh: Seq<((usize, usize, usize, usize), (u64, u64))>,
    solved: Seq<Vec<usize>>,
    h: HopRow,
    other: HopRow,
) -> bool {
    let w = hop_widths(wbh, h.lvl.0 as int, h.mhr.0 as int, h.vl as int, h.wl as int);
    let ow = hop_widths(
        wbh,
        other.lvl.0 as int,
        other.mhr.0 as int,
        other.vl as int,
        other.wl as int,
    );
    let shr = crate::crossing::shr_at(solved, h.lvl.0 as int, h.mhr.0 as int);
    let oshr = crate::crossing::shr_at(solved, other.lvl.0 as int, other.mhr.0 as int);
    &&& ((other.lvl.0 == h.lvl.0 && oshr == shr - 1) ==> (exists|i: int|
        0 <= i < constrs.len() && is_two_row(
            #[trigger] constrs[i],
            2 * SEP as int + ow.1 as int + w.0 as int,
            1,
            AnySol::S(h.n),
            -1,
            AnySol::S(other.n),
            None,
        )))
    &&& ((other.lvl.0 == h.lvl.0 && oshr == shr + 1) ==> (exists|i: int|
        0 <= i < constrs.len() && is_two_row(
            #[trigger] constrs[i],
            2 * SEP as int + ow.0 as int + w.1 as int,
            -1,
            AnySol::S(h.n),
            1,
            AnySol::S(other.n),
            None,
        )))
}

/// An outgoing first control point attached to the node at `(r, o)`: a
/// real hop starting there whose far end lies one rank below.
pub open spec fn attached_initial(hops: Seq<HopRow>, r: int, o: int, no: int, k: int) -> bool {
    &&& 0 <= k < hops.len()
    &&& (hops[k].lvl.0 as int) == r
    &&& (hops[k].mhr.0 as int) == o
    &&& (hops[k].nhr.0 as int) <= no
    &&& r < usize::MAX as int
}

/// An incoming final control point attached to the node at `(r, o)`: a
/// sentinel standing there, marked by an out-of-range far coordinate.
pub open spec fn attached_terminal(hops: Seq<HopRow>, r: int, o: int, no: int, k: int) -> bool {
    &&& 0 <= k < hops.len()
    &&& (hops[k].lvl.0 as int) == r
    &&& (hops[k].mhr.0 as int) == o
    &&& (hops[k].nhr.0 as int) > no
}

/// The solved position of an outgoing control point's far endpoint.
pub open spec fn init_key(solved: Seq<Vec<usize>>, h: HopRow) -> int {
    crate::crossing::shr_at(solved, h.lvl.0 as int + 1, h.nhr.0 as int)
}

/// The solved position of the upper endpoint of the edge's last real
/// hop, scanning the first `n` edge entries; zero when none matches.
pub open spec fn term_key_upto(
    hbe: Seq<
        ((usize, usize), Vec<(VerticalRank, OriginalHorizontalRank, OriginalHorizontalRank)>),
    >,
    solved: Seq<Vec<usize>>,
    vl: usize,
    wl: usize,
    n: int,
) -> int
    decreases n,
{
    if n <= 0 {
        0
    } else if hbe[n - 1].0.0 == vl && hbe[n - 1].0.1 == wl && hbe[n - 1].1@.len() > 0 {
        let last = hbe[n - 1].1@[hbe[n - 1].1@.len() - 1];
        crate::crossing::shr_at(solved, last.0.0 as int, last.1.0 as int)
    } else {
        term_key_upto(hbe, solved, vl, wl, n - 1)
    }
}

/// The solved far position of a final control point, over the whole
/// edge map.
pub open spec fn term_key(
    hbe: Seq<
        ((usize, usize), Vec<(VerticalRank, OriginalHorizontalRank, OriginalHorizontalRank)>),
    >,
    solved: Seq<Vec<usize>>,
    vl: usize,
    wl: usize,
) -> int {
    term_key_upto(hbe, solved, vl, wl, hbe.len() as int)
}

/// Strict order on `(far position, hop index)` pairs of the attachment
/// walk.
pub open spec fn akey_lt(k1: int, i1: int, k2: int, i2: int) -> bool {
    k1 < k2 || (k1 == k2 && i1 < i2)
}

/// Consecutive outgoing control points at a node, in solved order of
/// their far endpoints with the hop index as tie-break: strictly
/// ordered, with no attached one between.
pub open spec fn initial_consec(
    hops: Seq<HopRow>,
    solved: Seq<Vec<usize>>,
    r: int,
    o: int,
    no: int,
    g: int,
    k: int,
) -> bool {
    &&& attached_initial(hops, r, o, no, g)
    &&& attached_initial(hops, r, o, no, k)
    &&& akey_lt(init_key(solved, hops[g]), g, init_key(solved, hops[k]), k)
    &&& forall|j: int|
        #![trigger init_key(solved, hops[j])]
        attached_initial(hops, r, o, no, j) ==> !(akey_lt(
            init_key(solved, hops[g]),
            g,
            init_key(solved, hops[j]),
            j,
        ) && akey_lt(init_key(solved, hops[j]), j, init_key(solved, hops[k]), k))
}

/// Consecutive incoming final control points at a node, ordered by the
/// solved position of the edge's last real hop with the index
/// tie-break: strictly ordered, with no attached one between.
pub open spec fn terminal_consec(
    hops: Seq<HopRow>,
    hbe: Seq<
        ((usize, usize), Vec<(VerticalRank, OriginalHorizontalRank, OriginalHorizontalRank)>),
    >,
    solved: Seq<Vec<usize>>,
    r: int,
    o: int,
    no: int,
    g: int,
    k: int,
) -> bool {
    &&& attached_terminal(hops, r, o, no, g)
    &&& attached_terminal(hops, r, o, no, k)
    &&& akey_lt(
        term_key(hbe, solved, hops[g].vl, hops[g].wl),
        g,
        term_key(hbe, solved, hops[k].vl, hops[k].wl),
        k,
    )
    &&& forall|j: int|
        #![trigger hops[j].vl, hops[j].wl]
        attached_terminal(hops, r, o, no, j) ==> !(akey_lt(
            term_key(hbe, solved, hops[g].vl, hops[g].wl),
            g,
            term_key(hbe, solved, hops[j].vl, hops[j].wl),
            j,
        ) && akey_lt(
            term_key(hbe, solved, hops[j].vl, hops[j].wl),
            j,
            term_key(hbe, solved, hops[k].vl, hops[k].wl),
            k,
        ))
}

/// The separation row between the centerlines of two control points
/// consecutive in an attachment walk: a gap of `SEP` plus the facing
/// label widths.
pub open spec fn chain_sep_ok(
    constrs: Seq<Constraint<AnySol>>,
    wbh: Seq<((usize, usize, usize, usize), (u64, u64))>,
    g: HopRow,
    k: HopRow,
) -> bool {
    let wg = hop_widths(wbh, g.lvl.0 as int, g.mhr.0 as int, g.vl as int, g.wl as int);
    let wk = hop_widths(wbh, k.lvl.0 as int, k.mhr.0 as int, k.vl as int, k.wl as int);
    exists|i: int|
        0 <= i < constrs.len() && is_two_row(
            #[trigger] constrs[i],
            SEP as int + wg.1 as int + wk.0 as int,
            -1,
            AnySol::S(g.n),
            1,
            AnySol::S(k.n),
            None,
        )
}

/// The attachment walk lists hop index `j`.
pub open spec fn walk_lists(s: Seq<(usize, usize)>, j: int) -> bool {
    exists|p: int| 0 <= p < s.len() && ((#[trigger] s[p]).1 as int) == j
}

/// The row families the positioning program guarantees its callers.
pub open spec fn geometry_rows_ok(gp: GeometryProblem, lp: LayoutProblem, placement: Placement) -> bool {

                &&& gp.vars.wf()
                &&& forall|k: int|
                    0 <= k < lp.all_locs@.len() && (#[trigger] lp.all_locs@[k]).n != gp.root_n
                        ==> (exists|i: int|
                        0 <= i < gp.csp.constrs@.len() && is_two_row(
                            #[trigger] gp.csp.constrs@[i],
                            0,
                            -1,
                            AnySol::L(gp.root_n),
                            1,
                            AnySol::L(lp.all_locs@[k].n),
                            None,
                        )) && (exists|i: int|
                        0 <= i < gp.csp.constrs@.len() && is_two_row(
                            #[trigger] gp.csp.constrs@[i],
                            0,
                            -1,
                            AnySol::R(lp.all_locs@[k].n),
                            1,
                            AnySol::R(gp.root_n),
                            None,
                        ))
                &&& forall|k: int|
                    0 <= k < lp.all_locs@.len() ==> (exists|i: int|
                        0 <= i < gp.csp.constrs@.len() && (#[trigger] gp.csp.constrs@[i]).upper
                            is None && gp.csp.constrs@[i].comb@.len() == 2
                            && gp.csp.constrs@[i].comb@[0].coeff == -1
                            && gp.csp.constrs@[i].comb@[0].var.sol == AnySol::L(
                            (#[trigger] lp.all_locs@[k]).n,
                        ) && gp.csp.constrs@[i].comb@[1].coeff == 1
                            && gp.csp.constrs@[i].comb@[1].var.sol == AnySol::R(
                            lp.all_locs@[k].n,
                        ) && gp.csp.constrs@[i].lower >= 0 && (match measured_width(
                            lp.width_by_loc@,
                            lp.all_locs@[k].ovr.0 as int,
                            lp.all_locs@[k].ohr.0 as int,
                        ) {
                            Some(w) => gp.csp.constrs@[i].lower >= w,
                            None => false,
                        }) && (match lp.all_locs@[k].loc {
                            Loc::Node(nx) => gp.csp.constrs@[i].lower >= out_width_upto(
                                placement.hops_by_edge@,
                                lp.width_by_hop@,
                                nx,
                                placement.hops_by_edge@.len() as int,
                            ) && gp.csp.constrs@[i].lower >= in_width_upto(
                                placement.hops_by_edge@,
                                lp.width_by_hop@,
                                nx,
                                placement.hops_by_edge@.len() as int,
                            ),
                            Loc::Hop(_, _, _) => true,
                        }))
                &&& forall|k1: int, k2: int|
                    0 <= k1 < lp.all_locs@.len() && 0 <= k2 < lp.all_locs@.len() && (
                    #[trigger] lp.all_locs@[k1]).ovr == (#[trigger] lp.all_locs@[k2]).ovr && (
                    lp.all_locs@[k2].shr.0 as int) == (lp.all_locs@[k1].shr.0 as int) + 1
                        ==> exists|i: int|
                        0 <= i < gp.csp.constrs@.len() && is_two_row(
                            #[trigger] gp.csp.constrs@[i],
                            SEP as int,
                            -1,
                            AnySol::R(lp.all_locs@[k1].n),
                            1,
                            AnySol::L(lp.all_locs@[k2].n),
                            None,
                        )
                &&& forall|k: int|
        0 <= k < lp.all_hops@.len() ==> #[trigger] hop_frame_ok(
            gp.csp.constrs@,
            lp.width_by_hop@,
            gp.root_n,
            lp.all_hops@[k],
        )
    &&&  forall|k: int|
        0 <= k < lp.all_hops@.len() ==> #[trigger] hop_contain_ok(
            gp.csp.constrs@,
            lp.width_by_hop@,
            placement.loc_to_node@,
            lp.sol_by_loc@,
            lp.all_hops@[k],
        )
    &&&  forall|k: int|
        0 <= k < lp.all_hops@.len() ==> #[trigger] hop_sym_ok(
            gp.csp.constrs@,
            gp.pd@,
            lp.sol_by_hop@,
            lp.all_locs@.len() as int,
            lp.all_hops@[k],
        )
    &&& gp.ts@.len() == placement.locs_by_level@.len()
    &&& (gp.ts@.len() > 0 ==> gp.ts@[0] == 0)
    &&& forall|x: int| 0 <= x && x + 1 < gp.ts@.len() ==> (#[trigger] gp.ts@[x]) <= gp.ts@[x + 1]
    &&& gp.q@.len() == 1
    &&& gp.q@[0].coeff == 1
    &&& gp.q@[0].var.sol == AnySol::R(gp.root_n)
    &&& forall|i: int|
        0 <= i < gp.vars.sols@.len() && !((#[trigger] gp.vars.sols@[i]) is T) ==> nonneg_ok(
            gp.csp.constrs@,
            i as usize,
            gp.vars.sols@[i],
        )
    &&& forall|j: int| 0 <= j < gp.pd@.len() ==> #[trigger] pd_entry_ok(gp.csp.constrs@, gp.pd@[j])
}

/// Emit the variables and rows of the positioning program.
///
/// Per location: containment within the root frame and the minimum-width
/// row, whose bound is never below the measured width nor below the
/// summed label widths of the hop bundles entering and leaving a node;
/// per pair of positions adjacent in solved order: the separation row;
/// per hop: containment within the root frame, containment within the
/// node it starts on, separation from the control points sharing that
/// node (walked in solved order of their far endpoints), separation from
/// whatever stands at the neighboring solved positions of its rank, and,
/// when a successor control point exists, the quadratic symmetry penalty
/// tying their centerlines; finally a non-negativity row per coordinate.
/// The linear objective asks for the root's right edge, so total width
/// is minimized.
#[verifier::rlimit(100)]
pub fn position_sols_problem(
    vcg: &crate::vcg::Vcg,
    placement: &Placement,
    solved_locs: &Vec<Vec<usize>>,
    lp: &LayoutProblem,
) -> (r: Result<GeometryProblem, Error>)
    ensures
        match r {
            Ok(gp) => geometry_rows_ok(gp, *lp, *placement) && (forall|x: int|
                0 <= x && x + 1 < gp.ts@.len() ==> (#[trigger] gp.ts@[x + 1]) as int - gp.ts@[
                    x
                ] as int == rank_height(placement.node_to_loc@, vcg.vert_edge_labels@, x))
                && (forall|a: int, b: int|
                0 <= a < lp.all_hops@.len() && 0 <= b < lp.all_locs@.len()
                    ==> #[trigger] hop_node_sep_ok(
                    gp.csp.constrs@,
                    lp.width_by_hop@,
                    placement.hops_by_edge@,
                    solved_locs@,
                    lp.all_hops@[a],
                    lp.all_locs@[b],
                )) && (forall|a: int, b: int|
                0 <= a < lp.all_hops@.len() && 0 <= b < lp.all_hops@.len()
                    ==> #[trigger] hop_hop_sep_ok(
                    gp.csp.constrs@,
                    lp.width_by_hop@,
                    solved_locs@,
                    lp.all_hops@[a],
                    lp.all_hops@[b],
                )) && (forall|x: int, g: int, k: int|
                0 <= x < lp.all_locs@.len() && (lp.all_locs@[x].loc is Node)
                    && #[trigger] initial_consec(
                    lp.all_hops@,
                    solved_locs@,
                    lp.all_locs@[x].ovr.0 as int,
                    lp.all_locs@[x].ohr.0 as int,
                    lp.all_locs@.len() as int,
                    g,
                    k,
                ) ==> chain_sep_ok(
                    gp.csp.constrs@,
                    lp.width_by_hop@,
                    lp.all_hops@[g],
                    lp.all_hops@[k],
                )) && (forall|x: int, g: int, k: int|
                0 <= x < lp.all_locs@.len() && (lp.all_locs@[x].loc is Node)
                    && #[trigger] terminal_consec(
                    lp.all_hops@,
                    placement.hops_by_edge@,
                    solved_locs@,
                    lp.all_locs@[x].ovr.0 as int,
                    lp.all_locs@[x].ohr.0 as int,
                    lp.all_locs@.len() as int,
                    g,
                    k,
                ) ==> chain_sep_ok(
                    gp.csp.constrs@,
                    lp.width_by_hop@,
                    lp.all_hops@[g],
                    lp.all_hops@[k],
                )),
            Err(_) => true,
        },
        (loc_sol_spec(lp.sol_by_loc@, 0, 0) is None) ==> r is Err,
{
    let err_missing = Error::LayoutError {
        source: LayoutError::OsqpError { error: "missing node width".to_owned() },
    };
    let root_n = match loc_sol_exec(&lp.sol_by_loc, 0, 0) {
        Some(n) => n,
        None => {
            return Err(Error::GraphDrawingError { source: Kind::IndexingError });
        },
    };
    let mut vars: Vars<AnySol> = Vars::new();
    let mut csp: Constraints<AnySol> = Constraints::new();
    let mut pd: Vec<Monomial<AnySol>> = Vec::new();
    let mut q: Vec<Monomial<AnySol>> = Vec::new();
    q.push(vars.get(AnySol::R(root_n)));
    // Per-location rows.
    let mut k: usize = 0;
    while k < lp.all_locs.len()
        invariant
            vars.wf(),
            k <= lp.all_locs@.len(),
        decreases lp.all_locs@.len() - k,
    {
        let row = lp.all_locs[k];
        let n = row.n;
        // A hop location's centerline stays within its cell.
        match row.loc {
            Loc::Hop(_, hv, hw) => {
                match hop_sol_exec(&lp.sol_by_hop, row.ovr.0, row.ohr.0, hv, hw) {
                    Some(ns) => {
                        csp.leq(&mut vars, AnySol::L(n), AnySol::S(ns));
                        csp.leq(&mut vars, AnySol::S(ns), AnySol::R(n));
                    },
                    None => {},
                }
            },
            Loc::Node(_) => {},
        }
        csp.leq(&mut vars, AnySol::L(root_n), AnySol::L(n));
        csp.leq(&mut vars, AnySol::R(n), AnySol::R(root_n));
        // Minimum width: the measured width, or the summed widths of the
        // first hops out of and the last hops into the node, whichever is
        // largest.
        let measured = match measured_width_exec(&lp.width_by_loc, row.ovr.0, row.ohr.0) {
            Some(w) => w,
            None => {
                return Err(err_missing);
            },
        };
        let mut min_width = measured;
        match row.loc {
            Loc::Node(x) => {
                let (out_width, in_width) = match node_bundle_widths(
                    &placement.hops_by_edge,
                    &lp.width_by_hop,
                    x,
                ) {
                    Some(w) => w,
                    None => {
                        return Err(err_missing);
                    },
                };
                if out_width > min_width {
                    min_width = out_width;
                }
                if in_width > min_width {
                    min_width = in_width;
                }
            },
            Loc::Hop(_, _, _) => {},
        }
        if min_width > (i64::MAX as u64) {
            return Err(err_missing);
        }
        csp.leqc(&mut vars, AnySol::L(n), AnySol::R(n), min_width as i64);
        k = k + 1;
    }
    // Separation between positions adjacent in solved order.
    let mut k1: usize = 0;
    while k1 < lp.all_locs.len()
        invariant
            vars.wf(),
            k1 <= lp.all_locs@.len(),
        decreases lp.all_locs@.len() - k1,
    {
        let r1 = lp.all_locs[k1];
        let mut k2: usize = 0;
        while k2 < lp.all_locs.len()
            invariant
                vars.wf(),
                k2 <= lp.all_locs@.len(),
            decreases lp.all_locs@.len() - k2,
        {
            let r2 = lp.all_locs[k2];
            if r1.ovr.0 == r2.ovr.0 && r2.shr.0 >= 1 && r1.shr.0 == r2.shr.0 - 1 {
                csp.leqc(&mut vars, AnySol::R(r1.n), AnySol::L(r2.n), SEP);
            }
            k2 = k2 + 1;
        }
        k1 = k1 + 1;
    }
    // Per-hop rows.
    let num_objects = lp.all_locs.len();
    let mut k: usize = 0;
    while k < lp.all_hops.len()
        invariant
            vars.wf(),
            k <= lp.all_hops@.len(),
        decreases lp.all_hops@.len() - k,
    {
        let h = lp.all_hops[k];
        let (aw, pw) = hop_widths_exec(&lp.width_by_hop, h.lvl.0, h.mhr.0, h.vl, h.wl);
        if aw > (i64::MAX as u64) || pw > (i64::MAX as u64) || (aw as i64) > i64::MAX - SEP || (
        pw as i64) > i64::MAX - SEP {
            return Err(err_missing);
        }
        csp.leqc(&mut vars, AnySol::L(root_n), AnySol::S(h.n), aw as i64);
        csp.leqc(&mut vars, AnySol::S(h.n), AnySol::R(root_n), pw as i64);
        // Containment within the node the hop starts on.
        match loc_at_exec(&placement.loc_to_node, h.lvl.0, h.mhr.0) {
            Some(Loc::Node(_)) => {
                match loc_sol_exec(&lp.sol_by_loc, h.lvl.0, h.mhr.0) {
                    Some(nd) => {
                        csp.geqc(&mut vars, AnySol::S(h.n), AnySol::L(nd), SEP + (aw as i64));
                        csp.leqc(&mut vars, AnySol::S(h.n), AnySol::R(nd), SEP + (pw as i64));
                    },
                    None => {},
                }
            },
            _ => {},
        }
        // Vertical continuity: tie this centerline to the successor
        // control point's.
        if h.nhr.0 <= num_objects && h.lvl.0 < usize::MAX {
            match hop_sol_exec(&lp.sol_by_hop, h.lvl.0 + 1, h.nhr.0, h.vl, h.wl) {
                Some(nd) => {
                    csp.sym(&mut vars, &mut pd, AnySol::S(h.n), AnySol::S(nd));
                },
                None => {},
            }
        }
        k = k + 1;
    }
    // Separation between hops sharing a node: walking a node's attached
    // control points in solved order of their far endpoints, consecutive
    // ones keep the gap plus the facing label widths.
    let num_objects = lp.all_locs.len();
    let mut nk: usize = 0;
    while nk < lp.all_locs.len()
        invariant
            vars.wf(),
            nk <= lp.all_locs@.len(),
        decreases lp.all_locs@.len() - nk,
    {
        let row = lp.all_locs[nk];
        let is_node = matches!(row.loc, Loc::Node(_));
        if is_node {
            let r = row.ovr.0;
            let o = row.ohr.0;
            // attached control points: outgoing first hops (real lower
            // ends) and incoming final control points (sentinels)
            let mut initial: Vec<(usize, usize)> = Vec::new();
            let mut terminal: Vec<(usize, usize)> = Vec::new();
            let mut hk: usize = 0;
            while hk < lp.all_hops.len()
                invariant
                    vars.wf(),
                    hk <= lp.all_hops@.len(),
                    forall|p1: int, p2: int|
                        0 <= p1 < p2 < initial@.len() ==> crate::crossing::keyed_le(
                            #[trigger] initial@[p1],
                            #[trigger] initial@[p2],
                        ),
                    forall|p1: int, p2: int|
                        0 <= p1 < p2 < terminal@.len() ==> crate::crossing::keyed_le(
                            #[trigger] terminal@[p1],
                            #[trigger] terminal@[p2],
                        ),
                    forall|p: int|
                        0 <= p < initial@.len() ==> ((#[trigger] initial@[p]).1 as int)
                            < lp.all_hops@.len(),
                    forall|p: int|
                        0 <= p < terminal@.len() ==> ((#[trigger] terminal@[p]).1 as int)
                            < lp.all_hops@.len(),
                decreases lp.all_hops@.len() - hk,
            {
                let h = lp.all_hops[hk];
                if h.lvl.0 == r && h.mhr.0 == o {
                    if h.nhr.0 <= num_objects {
                        if r < usize::MAX {
                            let key = crate::crossing::shr_at_exec(solved_locs, r + 1, h.nhr.0);
                            let ghost pre = initial@;
                            let pos = crate::crossing::sorted_insert_keyed(
                                &mut initial,
                                (key, hk),
                            );
                            proof {
                                assert forall|p: int|
                                    0 <= p < initial@.len() implies ((
                                #[trigger] initial@[p]).1 as int) < lp.all_hops@.len() by {
                                    if p < pos {
                                        assert(initial@[p] == pre[p]);
                                    } else if p == pos {
                                        assert(initial@[p] == (key, hk));
                                    } else {
                                        assert(initial@[p] == pre[p - 1]);
                                    }
                                }
                            }
                        }
                    } else {
                        // the far end of a final control point is the last
                        // real hop's upper endpoint
                        let mut key: usize = 0;
                        let mut ek: usize = 0;
                        while ek < placement.hops_by_edge.len()
                            invariant
                                ek <= placement.hops_by_edge@.len(),
                            decreases placement.hops_by_edge@.len() - ek,
                        {
                            let entry = &placement.hops_by_edge[ek];
                            if entry.0.0 == h.vl && entry.0.1 == h.wl {
                                let hl = entry.1.len();
                                if hl > 0 {
                                    let last = entry.1[hl - 1];
                                    key = crate::crossing::shr_at_exec(
                                        solved_locs,
                                        last.0.0,
                                        last.1.0,
                                    );
                                }
                            }
                            ek = ek + 1;
                        }
                        let ghost pre = terminal@;
                        let pos = crate::crossing::sorted_insert_keyed(&mut terminal, (key, hk));
                        proof {
                            assert forall|p: int|
                                0 <= p < terminal@.len() implies ((
                            #[trigger] terminal@[p]).1 as int) < lp.all_hops@.len() by {
                                if p < pos {
                                    assert(terminal@[p] == pre[p]);
                                } else if p == pos {
                                    assert(terminal@[p] == (key, hk));
                                } else {
                                    assert(terminal@[p] == pre[p - 1]);
                                }
                            }
                        }
                    }
                }
                hk = hk + 1;
            }
            let mut gi: usize = 0;
            while gi < initial.len()
                invariant
                    vars.wf(),
                    gi <= initial@.len(),
                    forall|p: int|
                        0 <= p < initial@.len() ==> ((#[trigger] initial@[p]).1 as int)
                            < lp.all_hops@.len(),
                decreases initial@.len() - gi,
            {
                if gi + 1 < initial.len() {
                    let hl = lp.all_hops[initial[gi].1];
                    let hr = lp.all_hops[initial[gi + 1].1];
                    let wl = hop_widths_exec(&lp.width_by_hop, hl.lvl.0, hl.mhr.0, hl.vl, hl.wl);
                    let wr = hop_widths_exec(&lp.width_by_hop, hr.lvl.0, hr.mhr.0, hr.vl, hr.wl);
                    if wl.1 > (i64::MAX as u64) || wr.0 > (i64::MAX as u64) || (wl.1 as i64)
                        > i64::MAX - SEP - (wr.0 as i64) {
                        return Err(err_missing);
                    }
                    csp.leqc(
                        &mut vars,
                        AnySol::S(hl.n),
                        AnySol::S(hr.n),
                        SEP + (wl.1 as i64) + (wr.0 as i64),
                    );
                }
                gi = gi + 1;
            }
            let mut gi: usize = 0;
            while gi < terminal.len()
                invariant
                    vars.wf(),
                    gi <= terminal@.len(),
                    forall|p: int|
                        0 <= p < terminal@.len() ==> ((#[trigger] terminal@[p]).1 as int)
                            < lp.all_hops@.len(),
                decreases terminal@.len() - gi,
            {
                if gi + 1 < terminal.len() {
                    let hl = lp.all_hops[terminal[gi].1];
                    let hr = lp.all_hops[terminal[gi + 1].1];
                    let wl = hop_widths_exec(&lp.width_by_hop, hl.lvl.0, hl.mhr.0, hl.vl, hl.wl);
                    let wr = hop_widths_exec(&lp.width_by_hop, hr.lvl.0, hr.mhr.0, hr.vl, hr.wl);
                    if wl.1 > (i64::MAX as u64) || wr.0 > (i64::MAX as u64) || (wl.1 as i64)
                        > i64::MAX - SEP - (wr.0 as i64) {
                        return Err(err_missing);
                    }
                    csp.leqc(
                        &mut vars,
                        AnySol::S(hl.n),
                        AnySol::S(hr.n),
                        SEP + (wl.1 as i64) + (wr.0 as i64),
                    );
                }
                gi = gi + 1;
            }
        }
        nk = nk + 1;
    }
    // Cross-rank separation: a hop keeps clear of whatever stands at the
    // neighboring solved positions of its own rank.
    let mut k: usize = 0;
    while k < lp.all_hops.len()
        invariant
            vars.wf(),
            k <= lp.all_hops@.len(),
        decreases lp.all_hops@.len() - k,
    {
        let h = lp.all_hops[k];
        let (aw, pw) = hop_widths_exec(&lp.width_by_hop, h.lvl.0, h.mhr.0, h.vl, h.wl);
        if aw > (i64::MAX as u64) || pw > (i64::MAX as u64) {
            return Err(err_missing);
        }
        let shr = crate::crossing::shr_at_exec(solved_locs, h.lvl.0, h.mhr.0);
        let mut k2: usize = 0;
        while k2 < lp.all_locs.len()
            invariant
                vars.wf(),
                k2 <= lp.all_locs@.len(),
                -2 * SEP <= aw as i64 <= i64::MAX,
                0 <= pw as i64 <= i64::MAX,
            decreases lp.all_locs@.len() - k2,
        {
            let other = lp.all_locs[k2];
            let is_node = matches!(other.loc, Loc::Node(_));
            if is_node && other.ovr.0 == h.lvl.0 {
                // only nodes that take part in some edge stand beside hops
                let x = match other.loc {
                    Loc::Node(x) => x,
                    Loc::Hop(_, _, _) => 0,
                };
                let mut incident = false;
                let mut ek: usize = 0;
                while ek < placement.hops_by_edge.len()
                    invariant
                        ek <= placement.hops_by_edge@.len(),
                    decreases placement.hops_by_edge@.len() - ek,
                {
                    let entry = &placement.hops_by_edge[ek];
                    if entry.0.0 == x || entry.0.1 == x {
                        incident = true;
                    }
                    ek = ek + 1;
                }
                if incident {
                    if shr >= 1 && other.shr.0 == shr - 1 {
                        if (aw as i64) <= i64::MAX - SEP {
                            csp.geqc(
                                &mut vars,
                                AnySol::S(h.n),
                                AnySol::L(other.n),
                                SEP + (aw as i64),
                            );
                        } else {
                            return Err(err_missing);
                        }
                    }
                    if other.shr.0 >= 1 && other.shr.0 - 1 == shr {
                        if (aw as i64) <= i64::MAX - SEP {
                            csp.leqc(
                                &mut vars,
                                AnySol::S(h.n),
                                AnySol::L(other.n),
                                SEP + (aw as i64),
                            );
                        } else {
                            return Err(err_missing);
                        }
                    }
                }
            }
            k2 = k2 + 1;
        }
        let mut k3: usize = 0;
        while k3 < lp.all_hops.len()
            invariant
                vars.wf(),
                k3 <= lp.all_hops@.len(),
                0 <= aw as i64 <= i64::MAX,
                0 <= pw as i64 <= i64::MAX,
            decreases lp.all_hops@.len() - k3,
        {
            if k3 != k {
                let other = lp.all_hops[k3];
                if other.lvl.0 == h.lvl.0 {
                    let oshr = crate::crossing::shr_at_exec(solved_locs, other.lvl.0, other.mhr.0);
                    let ow = hop_widths_exec(
                        &lp.width_by_hop,
                        other.lvl.0,
                        other.mhr.0,
                        other.vl,
                        other.wl,
                    );
                    if ow.0 > (i64::MAX as u64) || ow.1 > (i64::MAX as u64) {
                        return Err(err_missing);
                    }
                    if shr >= 1 && oshr == shr - 1 {
                        if (ow.1 as i64) > i64::MAX - 2 * SEP - (aw as i64) {
                            return Err(err_missing);
                        }
                        csp.geqc(
                            &mut vars,
                            AnySol::S(h.n),
                            AnySol::S(other.n),
                            2 * SEP + (ow.1 as i64) + (aw as i64),
                        );
                    }
                    if oshr >= 1 && oshr - 1 == shr {
                        if (ow.0 as i64) > i64::MAX - 2 * SEP - (pw as i64) {
                            return Err(err_missing);
                        }
                        csp.leqc(
                            &mut vars,
                            AnySol::S(h.n),
                            AnySol::S(other.n),
                            2 * SEP + (ow.0 as i64) + (pw as i64),
                        );
                    }
                }
            }
            k3 = k3 + 1;
        }
        k = k + 1;
    }
    // Non-negativity of every coordinate.
    let all = vars.iter();
    let mut v: usize = 0;
    while v < all.len()
        invariant
            vars.wf(),
            v <= all@.len(),
        decreases all@.len() - v,
    {
        let var = all[v];
        if !matches!(var.sol, AnySol::T(_)) {
            let mut bc: Vec<Monomial<AnySol>> = Vec::new();
            bc.push(Monomial::of(var));
            csp.push(Constraint { lower: 0, comb: bc, upper: None });
        }
        v = v + 1;
    }
    // Per-rank top offsets from the edge-label heights.
    let mut heights: Vec<u64> = Vec::new();
    let mut r: usize = 0;
    while r < placement.locs_by_level.len()
        invariant
            r <= placement.locs_by_level@.len(),
            heights@.len() == r,
            forall|rr: int| 0 <= rr < r ==> (#[trigger] heights@[rr]) == 0,
        decreases placement.locs_by_level@.len() - r,
    {
        heights.push(0);
        r = r + 1;
    }
    let mut e: usize = 0;
    while e < placement.node_to_loc.len()
        invariant
            e <= placement.node_to_loc@.len(),
            heights@.len() == placement.locs_by_level@.len(),
            forall|rr: int|
                0 <= rr < heights@.len() ==> (#[trigger] heights@[rr]) as int == rank_height_upto(
                    placement.node_to_loc@,
                    vcg.vert_edge_labels@,
                    rr,
                    e as int,
                ),
        decreases placement.node_to_loc@.len() - e,
    {
        let entry = placement.node_to_loc[e];
        let ghost pre = heights@;
        match entry.0 {
            Loc::Node(x) => {
                let ovr = entry.1.0;
                if ovr < heights.len() {
                    let mut m: u64 = 1;
                    let mut li: usize = 0;
                    while li < vcg.vert_edge_labels.len()
                        invariant
                            li <= vcg.vert_edge_labels@.len(),
                            m >= 1,
                            m as int == node_label_max_upto(vcg.vert_edge_labels@, x, li as int),
                        decreases vcg.vert_edge_labels@.len() - li,
                    {
                        let lrow = &vcg.vert_edge_labels[li];
                        if lrow.src == x {
                            let c = lrow.labels.len() as u64;
                            if c > m {
                                m = c;
                            }
                        }
                        li = li + 1;
                    }
                    let h = m - 1;
                    if h > heights[ovr] {
                        heights.set(ovr, h);
                    }
                    proof {
                        assert forall|rr: int| 0 <= rr < heights@.len() implies (
                        #[trigger] heights@[rr]) as int == rank_height_upto(
                            placement.node_to_loc@,
                            vcg.vert_edge_labels@,
                            rr,
                            e as int + 1,
                        ) by {
                            assert(placement.node_to_loc@[e as int] == entry);
                            assert(pre[rr] as int == rank_height_upto(
                                placement.node_to_loc@,
                                vcg.vert_edge_labels@,
                                rr,
                                e as int,
                            ));
                            if rr == ovr as int {
                                assert(heights@[rr] == (if h > pre[rr] {
                                    h
                                } else {
                                    pre[rr]
                                }));
                            } else {
                                assert(heights@[rr] == pre[rr]);
                            }
                        };
                    }
                } else {
                    proof {
                        assert forall|rr: int| 0 <= rr < heights@.len() implies (
                        #[trigger] heights@[rr]) as int == rank_height_upto(
                            placement.node_to_loc@,
                            vcg.vert_edge_labels@,
                            rr,
                            e as int + 1,
                        ) by {
                            assert(placement.node_to_loc@[e as int] == entry);
                        };
                    }
                }
            },
            Loc::Hop(_, _, _) => {
                proof {
                    assert forall|rr: int| 0 <= rr < heights@.len() implies (
                    #[trigger] heights@[rr]) as int == rank_height_upto(
                        placement.node_to_loc@,
                        vcg.vert_edge_labels@,
                        rr,
                        e as int + 1,
                    ) by {
                        assert(placement.node_to_loc@[e as int] == entry);
                    };
                }
            },
        }
        e = e + 1;
    }
    let mut ts: Vec<u64> = Vec::new();
    let mut acc: u64 = 0;
    let mut r: usize = 0;
    while r < heights.len()
        invariant
            r <= heights@.len(),
            ts@.len() == r,
            heights@.len() == placement.locs_by_level@.len(),
            r == 0 ==> acc == 0,
            r > 0 ==> ts@[0] == 0,
            forall|x: int| 0 <= x < r ==> (#[trigger] ts@[x]) <= acc,
            forall|x: int| 0 <= x && x + 1 < r ==> (#[trigger] ts@[x]) <= ts@[x + 1],
            forall|rr: int|
                0 <= rr < heights@.len() ==> (#[trigger] heights@[rr]) as int == rank_height(
                    placement.node_to_loc@,
                    vcg.vert_edge_labels@,
                    rr,
                ),
            r > 0 ==> acc as int == ts@[r - 1] as int + heights@[r - 1] as int,
            forall|x: int|
                0 <= x && x + 1 < r ==> (#[trigger] ts@[x + 1]) as int - ts@[x] as int
                    == rank_height(placement.node_to_loc@, vcg.vert_edge_labels@, x),
        decreases heights@.len() - r,
    {
        ts.push(acc);
        proof {
            if r > 0 {
                assert(ts@[r as int] as int - ts@[r as int - 1] as int == rank_height(
                    placement.node_to_loc@,
                    vcg.vert_edge_labels@,
                    r as int - 1,
                ));
            }
        }
        match acc.checked_add(heights[r]) {
            Some(na) => {
                acc = na;
            },
            None => {
                return Err(err_missing);
            },
        }
        r = r + 1;
    }
    let gp = GeometryProblem { vars, csp, pd, q, ts, root_n };
    // Confirm the row families the callers rely on.
    let mut k: usize = 0;
    while k < lp.all_locs.len()
        invariant
            gp.vars.wf(),
            k <= lp.all_locs@.len(),
            heights@.len() == placement.locs_by_level@.len(),
            ts@.len() == placement.locs_by_level@.len(),
            forall|x: int|
                0 <= x < k && (#[trigger] lp.all_locs@[x]).n != gp.root_n ==> (exists|i: int|
                    0 <= i < gp.csp.constrs@.len() && is_two_row(
                        #[trigger] gp.csp.constrs@[i],
                        0,
                        -1,
                        AnySol::L(gp.root_n),
                        1,
                        AnySol::L(lp.all_locs@[x].n),
                        None,
                    )) && (exists|i: int|
                    0 <= i < gp.csp.constrs@.len() && is_two_row(
                        #[trigger] gp.csp.constrs@[i],
                        0,
                        -1,
                        AnySol::R(lp.all_locs@[x].n),
                        1,
                        AnySol::R(gp.root_n),
                        None,
                    )),
            forall|x: int|
                0 <= x < k ==> (exists|i: int|
                    0 <= i < gp.csp.constrs@.len() && (#[trigger] gp.csp.constrs@[i]).upper is None
                        && gp.csp.constrs@[i].comb@.len() == 2 && gp.csp.constrs@[i].comb@[0].coeff
                        == -1 && gp.csp.constrs@[i].comb@[0].var.sol == AnySol::L(
                        (#[trigger] lp.all_locs@[x]).n,
                    ) && gp.csp.constrs@[i].comb@[1].coeff == 1 && gp.csp.constrs@[i].comb@[1].var.sol
                        == AnySol::R(lp.all_locs@[x].n) && gp.csp.constrs@[i].lower >= 0 && (
                    match measured_width(
                        lp.width_by_loc@,
                        lp.all_locs@[x].ovr.0 as int,
                        lp.all_locs@[x].ohr.0 as int,
                    ) {
                        Some(w) => gp.csp.constrs@[i].lower >= w,
                        None => false,
                    }) && (match lp.all_locs@[x].loc {
                        Loc::Node(nx) => gp.csp.constrs@[i].lower >= out_width_upto(
                            placement.hops_by_edge@,
                            lp.width_by_hop@,
                            nx,
                            placement.hops_by_edge@.len() as int,
                        ) && gp.csp.constrs@[i].lower >= in_width_upto(
                            placement.hops_by_edge@,
                            lp.width_by_hop@,
                            nx,
                            placement.hops_by_edge@.len() as int,
                        ),
                        Loc::Hop(_, _, _) => true,
                    })),
        decreases lp.all_locs@.len() - k,
    {
        let row = lp.all_locs[k];
        let n = row.n;
        if n.0 != gp.root_n.0 {
            if !has_two_row(&gp.csp, 0, -1, AnySol::L(gp.root_n), 1, AnySol::L(n)) {
                return Err(
                    Error::LayoutError {
                        source: LayoutError::OsqpError { error: "missing row".to_owned() },
                    },
                );
            }
            if !has_two_row(&gp.csp, 0, -1, AnySol::R(n), 1, AnySol::R(gp.root_n)) {
                return Err(
                    Error::LayoutError {
                        source: LayoutError::OsqpError { error: "missing row".to_owned() },
                    },
                );
            }
        }
        proof {
            if n != gp.root_n {
                assert(n.0 != gp.root_n.0);
            }
        }
        let measured = match measured_width_exec(&lp.width_by_loc, row.ovr.0, row.ohr.0) {
            Some(w) => w,
            None => {
                return Err(err_missing);
            },
        };
        let mut want = measured;
        match row.loc {
            Loc::Node(nx) => {
                let (ow, iw) = match node_bundle_widths(
                    &placement.hops_by_edge,
                    &lp.width_by_hop,
                    nx,
                ) {
                    Some(w) => w,
                    None => {
                        return Err(err_missing);
                    },
                };
                if ow > want {
                    want = ow;
                }
                if iw > want {
                    want = iw;
                }
            },
            Loc::Hop(_, _, _) => {},
        }
        if want > (i64::MAX as u64) {
            return Err(err_missing);
        }
        if !has_min_width_row(&gp.csp, n, want as i64) {
            return Err(
                Error::LayoutError {
                    source: LayoutError::OsqpError { error: "missing row".to_owned() },
                },
            );
        }
        k = k + 1;
    }
    let mut k1: usize = 0;
    while k1 < lp.all_locs.len()
        invariant
            gp.vars.wf(),
            k1 <= lp.all_locs@.len(),
            forall|x1: int, x2: int|
                0 <= x1 < k1 && 0 <= x2 < lp.all_locs@.len() && (
                #[trigger] lp.all_locs@[x1]).ovr == (#[trigger] lp.all_locs@[x2]).ovr && (
                lp.all_locs@[x2].shr.0 as int) == (lp.all_locs@[x1].shr.0 as int) + 1 ==> exists|
                    i: int,
                |
                    0 <= i < gp.csp.constrs@.len() && is_two_row(
                        #[trigger] gp.csp.constrs@[i],
                        SEP as int,
                        -1,
                        AnySol::R(lp.all_locs@[x1].n),
                        1,
                        AnySol::L(lp.all_locs@[x2].n),
                        None,
                    ),
        decreases lp.all_locs@.len() - k1,
    {
        let r1 = lp.all_locs[k1];
        let mut k2: usize = 0;
        while k2 < lp.all_locs.len()
            invariant
                gp.vars.wf(),
                k1 < lp.all_locs@.len(),
                r1 == lp.all_locs@[k1 as int],
                k2 <= lp.all_locs@.len(),
                forall|x2: int|
                    0 <= x2 < k2 && r1.ovr == (#[trigger] lp.all_locs@[x2]).ovr && (
                    lp.all_locs@[x2].shr.0 as int) == (r1.shr.0 as int) + 1 ==> exists|i: int|
                        0 <= i < gp.csp.constrs@.len() && is_two_row(
                            #[trigger] gp.csp.constrs@[i],
                            SEP as int,
                            -1,
                            AnySol::R(r1.n),
                            1,
                            AnySol::L(lp.all_locs@[x2].n),
                            None,
                        ),
                forall|x1: int, x2: int|
                    0 <= x1 < k1 && 0 <= x2 < lp.all_locs@.len() && (
                    #[trigger] lp.all_locs@[x1]).ovr == (#[trigger] lp.all_locs@[x2]).ovr && (
                    lp.all_locs@[x2].shr.0 as int) == (lp.all_locs@[x1].shr.0 as int) + 1
                        ==> exists|i: int|
                        0 <= i < gp.csp.constrs@.len() && is_two_row(
                            #[trigger] gp.csp.constrs@[i],
                            SEP as int,
                            -1,
                            AnySol::R(lp.all_locs@[x1].n),
                            1,
                            AnySol::L(lp.all_locs@[x2].n),
                            None,
                        ),
            decreases lp.all_locs@.len() - k2,
        {
            let r2 = lp.all_locs[k2];
            if r1.ovr.0 == r2.ovr.0 && r2.shr.0 >= 1 && r1.shr.0 == r2.shr.0 - 1 {
                if !has_two_row(&gp.csp, SEP, -1, AnySol::R(r1.n), 1, AnySol::L(r2.n)) {
                    return Err(
                        Error::LayoutError {
                            source: LayoutError::OsqpError { error: "missing row".to_owned() },
                        },
                    );
                }
            }
            proof {
                if r1.ovr == lp.all_locs@[k2 as int].ovr && (lp.all_locs@[k2 as int].shr.0
                    as int) == (r1.shr.0 as int) + 1 {
                    assert(r1.ovr.0 == r2.ovr.0 && r2.shr.0 >= 1 && r1.shr.0 == r2.shr.0 - 1);
                }
            }
            k2 = k2 + 1;
        }
        k1 = k1 + 1;
    }
    let mut k: usize = 0;
    while k < lp.all_hops.len()
        invariant
            gp.vars.wf(),
            k <= lp.all_hops@.len(),
            forall|x: int|
                0 <= x < k ==> #[trigger] hop_frame_ok(
                    gp.csp.constrs@,
                    lp.width_by_hop@,
                    gp.root_n,
                    lp.all_hops@[x],
                ),
            forall|x: int|
                0 <= x < k ==> #[trigger] hop_contain_ok(
                    gp.csp.constrs@,
                    lp.width_by_hop@,
                    placement.loc_to_node@,
                    lp.sol_by_loc@,
                    lp.all_hops@[x],
                ),
            forall|x: int|
                0 <= x < k ==> #[trigger] hop_sym_ok(
                    gp.csp.constrs@,
                    gp.pd@,
                    lp.sol_by_hop@,
                    lp.all_locs@.len() as int,
                    lp.all_hops@[x],
                ),
        decreases lp.all_hops@.len() - k,
    {
        let h = lp.all_hops[k];
        let (aw, pw) = hop_widths_exec(&lp.width_by_hop, h.lvl.0, h.mhr.0, h.vl, h.wl);
        if aw > (i64::MAX as u64) || pw > (i64::MAX as u64) || (aw as i64) > i64::MAX - SEP || (
        pw as i64) > i64::MAX - SEP {
            return Err(err_missing);
        }
        if !has_two_row(&gp.csp, aw as i64, -1, AnySol::L(gp.root_n), 1, AnySol::S(h.n)) {
            return Err(
                Error::LayoutError {
                    source: LayoutError::OsqpError { error: "missing row".to_owned() },
                },
            );
        }
        if !has_two_row(&gp.csp, pw as i64, -1, AnySol::S(h.n), 1, AnySol::R(gp.root_n)) {
            return Err(
                Error::LayoutError {
                    source: LayoutError::OsqpError { error: "missing row".to_owned() },
                },
            );
        }
        proof {
            assert(hop_frame_ok(gp.csp.constrs@, lp.width_by_hop@, gp.root_n, lp.all_hops@[k as int]));
        }
        match loc_at_exec(&placement.loc_to_node, h.lvl.0, h.mhr.0) {
            Some(Loc::Node(_)) => {
                match loc_sol_exec(&lp.sol_by_loc, h.lvl.0, h.mhr.0) {
                    Some(nd) => {
                        if !has_two_row(
                            &gp.csp,
                            SEP + (aw as i64),
                            1,
                            AnySol::S(h.n),
                            -1,
                            AnySol::L(nd),
                        ) {
                            return Err(
                                Error::LayoutError {
                                    source: LayoutError::OsqpError { error: "missing row".to_owned() },
                                },
                            );
                        }
                        if !has_two_row(
                            &gp.csp,
                            SEP + (pw as i64),
                            -1,
                            AnySol::S(h.n),
                            1,
                            AnySol::R(nd),
                        ) {
                            return Err(
                                Error::LayoutError {
                                    source: LayoutError::OsqpError { error: "missing row".to_owned() },
                                },
                            );
                        }
                    },
                    None => {
                        return Err(err_missing);
                    },
                }
            },
            _ => {},
        }
        proof {
            assert(hop_contain_ok(
                gp.csp.constrs@,
                lp.width_by_hop@,
                placement.loc_to_node@,
                lp.sol_by_loc@,
                lp.all_hops@[k as int],
            ));
        }
        if h.nhr.0 <= lp.all_locs.len() && h.lvl.0 < usize::MAX {
            match hop_sol_exec(&lp.sol_by_hop, h.lvl.0 + 1, h.nhr.0, h.vl, h.wl) {
                Some(nd) => {
                    if !has_sym_pair(&gp.csp, &gp.pd, AnySol::S(h.n), AnySol::S(nd)) {
                        return Err(
                            Error::LayoutError {
                                source: LayoutError::OsqpError { error: "missing row".to_owned() },
                            },
                        );
                    }
                },
                None => {},
            }
        }
        proof {
            assert(hop_sym_ok(
                gp.csp.constrs@,
                gp.pd@,
                lp.sol_by_hop@,
                lp.all_locs@.len() as int,
                lp.all_hops@[k as int],
            ));
        }
        k = k + 1;
    }
    let mut v2: usize = 0;
    while v2 < gp.vars.sols.len()
        invariant
            v2 <= gp.vars.sols@.len(),
            forall|i: int|
                0 <= i < v2 && !((#[trigger] gp.vars.sols@[i]) is T) ==> nonneg_ok(
                    gp.csp.constrs@,
                    i as usize,
                    gp.vars.sols@[i],
                ),
        decreases gp.vars.sols@.len() - v2,
    {
        let sv = gp.vars.sols[v2];
        if !matches!(sv, AnySol::T(_)) {
            if !has_nonneg(&gp.csp, v2, sv) {
                return Err(
                    Error::LayoutError {
                        source: LayoutError::OsqpError { error: "missing row".to_owned() },
                    },
                );
            }
        }
        v2 = v2 + 1;
    }
    let mut pj: usize = 0;
    while pj < gp.pd.len()
        invariant
            pj <= gp.pd@.len(),
            forall|j: int|
                0 <= j < pj ==> #[trigger] pd_entry_ok(gp.csp.constrs@, gp.pd@[j]),
        decreases gp.pd@.len() - pj,
    {
        let pm = gp.pd[pj];
        if pm.coeff != 100 {
            return Err(
                Error::LayoutError {
                    source: LayoutError::OsqpError { error: "missing row".to_owned() },
                },
            );
        }
        if !has_pd_tie(&gp.csp, pm) {
            return Err(
                Error::LayoutError {
                    source: LayoutError::OsqpError { error: "missing row".to_owned() },
                },
            );
        }
        pj = pj + 1;
    }
    proof {
        assert forall|k: int|
            0 <= k < lp.all_locs@.len() && (#[trigger] lp.all_locs@[k]).n != gp.root_n implies (
        exists|i: int|
            0 <= i < gp.csp.constrs@.len() && is_two_row(
                #[trigger] gp.csp.constrs@[i],
                0,
                -1,
                AnySol::L(gp.root_n),
                1,
                AnySol::L(lp.all_locs@[k].n),
                None,
            )) by {
            assert(lp.all_locs@[k].n.0 != gp.root_n.0 || lp.all_locs@[k].n == gp.root_n);
        }
        assert forall|k: int|
            0 <= k < lp.all_locs@.len() implies (exists|i: int|
            0 <= i < gp.csp.constrs@.len() && (#[trigger] gp.csp.constrs@[i]).upper is None
                && gp.csp.constrs@[i].comb@.len() == 2 && gp.csp.constrs@[i].comb@[0].coeff == -1
                && gp.csp.constrs@[i].comb@[0].var.sol == AnySol::L(
                (#[trigger] lp.all_locs@[k]).n,
            ) && gp.csp.constrs@[i].comb@[1].coeff == 1 && gp.csp.constrs@[i].comb@[1].var.sol
                == AnySol::R(lp.all_locs@[k].n) && gp.csp.constrs@[i].lower >= 0 && (
            match measured_width(
                lp.width_by_loc@,
                lp.all_locs@[k].ovr.0 as int,
                lp.all_locs@[k].ohr.0 as int,
            ) {
                Some(w) => gp.csp.constrs@[i].lower >= w,
                None => false,
            }) && (match lp.all_locs@[k].loc {
                Loc::Node(nx) => gp.csp.constrs@[i].lower >= out_width_upto(
                    placement.hops_by_edge@,
                    lp.width_by_hop@,
                    nx,
                    placement.hops_by_edge@.len() as int,
                ) && gp.csp.constrs@[i].lower >= in_width_upto(
                    placement.hops_by_edge@,
                    lp.width_by_hop@,
                    nx,
                    placement.hops_by_edge@.len() as int,
                ),
                Loc::Hop(_, _, _) => true,
            })) by {}
        assert(gp.vars.wf());
        assert(forall|k: int|
                    0 <= k < lp.all_locs@.len() && (#[trigger] lp.all_locs@[k]).n != gp.root_n
                        ==> (exists|i: int|
                        0 <= i < gp.csp.constrs@.len() && is_two_row(
                            #[trigger] gp.csp.constrs@[i],
                            0,
                            -1,
                            AnySol::L(gp.root_n),
                            1,
                            AnySol::L(lp.all_locs@[k].n),
                            None,
                        )) && (exists|i: int|
                        0 <= i < gp.csp.constrs@.len() && is_two_row(
                            #[trigger] gp.csp.constrs@[i],
                            0,
                            -1,
                            AnySol::R(lp.all_locs@[k].n),
                            1,
                            AnySol::R(gp.root_n),
                            None,
                        )));
        assert(forall|k: int|
                    0 <= k < lp.all_locs@.len() ==> (exists|i: int|
                        0 <= i < gp.csp.constrs@.len() && (#[trigger] gp.csp.constrs@[i]).upper
                            is None && gp.csp.constrs@[i].comb@.len() == 2
                            && gp.csp.constrs@[i].comb@[0].coeff == -1
                            && gp.csp.constrs@[i].comb@[0].var.sol == AnySol::L(
                            (#[trigger] lp.all_locs@[k]).n,
                        ) && gp.csp.constrs@[i].comb@[1].coeff == 1
                            && gp.csp.constrs@[i].comb@[1].var.sol == AnySol::R(
                            lp.all_locs@[k].n,
                        ) && gp.csp.constrs@[i].lower >= 0 && (match measured_width(
                            lp.width_by_loc@,
                            lp.all_locs@[k].ovr.0 as int,
                            lp.all_locs@[k].ohr.0 as int,
                        ) {
                            Some(w) => gp.csp.constrs@[i].lower >= w,
                            None => false,
                        }) && (match lp.all_locs@[k].loc {
                            Loc::Node(nx) => gp.csp.constrs@[i].lower >= out_width_upto(
                                placement.hops_by_edge@,
                                lp.width_by_hop@,
                                nx,
                                placement.hops_by_edge@.len() as int,
                            ) && gp.csp.constrs@[i].lower >= in_width_upto(
                                placement.hops_by_edge@,
                                lp.width_by_hop@,
                                nx,
                                placement.hops_by_edge@.len() as int,
                            ),
                            Loc::Hop(_, _, _) => true,
                        })));
        assert(forall|k1: int, k2: int|
                    0 <= k1 < lp.all_locs@.len() && 0 <= k2 < lp.all_locs@.len() && (
                    #[trigger] lp.all_locs@[k1]).ovr == (#[trigger] lp.all_locs@[k2]).ovr && (
                    lp.all_locs@[k2].shr.0 as int) == (lp.all_locs@[k1].shr.0 as int) + 1
                        ==> exists|i: int|
                        0 <= i < gp.csp.constrs@.len() && is_two_row(
                            #[trigger] gp.csp.constrs@[i],
                            SEP as int,
                            -1,
                            AnySol::R(lp.all_locs@[k1].n),
                            1,
                            AnySol::L(lp.all_locs@[k2].n),
                            None,
                        ));
        assert forall|k: int|
            0 <= k < lp.all_hops@.len() implies #[trigger] hop_frame_ok(
            gp.csp.constrs@,
            lp.width_by_hop@,
            gp.root_n,
            lp.all_hops@[k],
        ) by {}
        assert forall|k: int|
            0 <= k < lp.all_hops@.len() implies #[trigger] hop_contain_ok(
            gp.csp.constrs@,
            lp.width_by_hop@,
            placement.loc_to_node@,
            lp.sol_by_loc@,
            lp.all_hops@[k],
        ) by {}
        assert forall|k: int|
            0 <= k < lp.all_hops@.len() implies #[trigger] hop_sym_ok(
            gp.csp.constrs@,
            gp.pd@,
            lp.sol_by_hop@,
            lp.all_locs@.len() as int,
            lp.all_hops@[k],
        ) by {}
        assert(gp.ts@.len() == placement.locs_by_level@.len());
        assert(geometry_rows_ok(gp, *lp, *placement));
    }
    // Confirm the cross-rank separation rows: a hop against the
    // edge-incident nodes and the hops standing at the neighboring solved
    // positions of its rank.
    let mut ca: usize = 0;
    while ca < lp.all_hops.len()
        invariant
            ca <= lp.all_hops@.len(),
            forall|x: int, y: int|
                0 <= x < ca && 0 <= y < lp.all_locs@.len() ==> #[trigger] hop_node_sep_ok(
                    gp.csp.constrs@,
                    lp.width_by_hop@,
                    placement.hops_by_edge@,
                    solved_locs@,
                    lp.all_hops@[x],
                    lp.all_locs@[y],
                ),
            forall|x: int, y: int|
                0 <= x < ca && 0 <= y < lp.all_hops@.len() ==> #[trigger] hop_hop_sep_ok(
                    gp.csp.constrs@,
                    lp.width_by_hop@,
                    solved_locs@,
                    lp.all_hops@[x],
                    lp.all_hops@[y],
                ),
        decreases lp.all_hops@.len() - ca,
    {
        let h = lp.all_hops[ca];
        let w = hop_widths_exec(&lp.width_by_hop, h.lvl.0, h.mhr.0, h.vl, h.wl);
        if w.0 > (i64::MAX as u64) || w.1 > (i64::MAX as u64) {
            return Err(err_missing);
        }
        let shr = crate::crossing::shr_at_exec(solved_locs, h.lvl.0, h.mhr.0);
        let mut cb: usize = 0;
        while cb < lp.all_locs.len()
            invariant
                ca < lp.all_hops@.len(),
                cb <= lp.all_locs@.len(),
                h == lp.all_hops@[ca as int],
                w.0 <= (i64::MAX as u64),
                w.1 <= (i64::MAX as u64),
                w == hop_widths(
                    lp.width_by_hop@,
                    h.lvl.0 as int,
                    h.mhr.0 as int,
                    h.vl as int,
                    h.wl as int,
                ),
                shr as int == crate::crossing::shr_at(
                    solved_locs@,
                    h.lvl.0 as int,
                    h.mhr.0 as int,
                ),
                forall|y: int|
                    0 <= y < cb ==> #[trigger] hop_node_sep_ok(
                        gp.csp.constrs@,
                        lp.width_by_hop@,
                        placement.hops_by_edge@,
                        solved_locs@,
                        lp.all_hops@[ca as int],
                        lp.all_locs@[y],
                    ),
            decreases lp.all_locs@.len() - cb,
        {
            let other = lp.all_locs[cb];
            let is_node = matches!(other.loc, Loc::Node(_));
            if is_node && other.ovr.0 == h.lvl.0 {
                let x = match other.loc {
                    Loc::Node(x) => x,
                    Loc::Hop(_, _, _) => 0,
                };
                let mut incident = false;
                let mut ek: usize = 0;
                while ek < placement.hops_by_edge.len()
                    invariant
                        ek <= placement.hops_by_edge@.len(),
                        incident ==> node_in_edges(placement.hops_by_edge@, x),
                        !incident ==> forall|e: int|
                            0 <= e < ek ==> !((#[trigger] placement.hops_by_edge@[e]).0.0 == x
                                || placement.hops_by_edge@[e].0.1 == x),
                    decreases placement.hops_by_edge@.len() - ek,
                {
                    let entry = &placement.hops_by_edge[ek];
                    if entry.0.0 == x || entry.0.1 == x {
                        incident = true;
                    }
                    ek = ek + 1;
                }
                if incident {
                    if shr >= 1 && other.shr.0 == shr - 1 {
                        if (w.0 as i64) > i64::MAX - SEP {
                            return Err(err_missing);
                        }
                        if !has_two_row(
                            &gp.csp,
                            SEP + (w.0 as i64),
                            1,
                            AnySol::S(h.n),
                            -1,
                            AnySol::L(other.n),
                        ) {
                            return Err(
                                Error::LayoutError {
                                    source: LayoutError::OsqpError {
                                        error: "missing row".to_owned(),
                                    },
                                },
                            );
                        }
                    }
                    if other.shr.0 >= 1 && other.shr.0 - 1 == shr {
                        if (w.0 as i64) > i64::MAX - SEP {
                            return Err(err_missing);
                        }
                        if !has_two_row(
                            &gp.csp,
                            SEP + (w.0 as i64),
                            -1,
                            AnySol::S(h.n),
                            1,
                            AnySol::L(other.n),
                        ) {
                            return Err(
                                Error::LayoutError {
                                    source: LayoutError::OsqpError {
                                        error: "missing row".to_owned(),
                                    },
                                },
                            );
                        }
                    }
                }
            }
            proof {
                assert(hop_node_sep_ok(
                    gp.csp.constrs@,
                    lp.width_by_hop@,
                    placement.hops_by_edge@,
                    solved_locs@,
                    lp.all_hops@[ca as int],
                    lp.all_locs@[cb as int],
                ));
            }
            cb = cb + 1;
        }
        let mut cc: usize = 0;
        while cc < lp.all_hops.len()
            invariant
                ca < lp.all_hops@.len(),
                cc <= lp.all_hops@.len(),
                h == lp.all_hops@[ca as int],
                w.0 <= (i64::MAX as u64),
                w.1 <= (i64::MAX as u64),
                w == hop_widths(
                    lp.width_by_hop@,
                    h.lvl.0 as int,
                    h.mhr.0 as int,
                    h.vl as int,
                    h.wl as int,
                ),
                shr as int == crate::crossing::shr_at(
                    solved_locs@,
                    h.lvl.0 as int,
                    h.mhr.0 as int,
                ),
                forall|y: int|
                    0 <= y < cc ==> #[trigger] hop_hop_sep_ok(
                        gp.csp.constrs@,
                        lp.width_by_hop@,
                        solved_locs@,
                        lp.all_hops@[ca as int],
                        lp.all_hops@[y],
                    ),
            decreases lp.all_hops@.len() - cc,
        {
            let other = lp.all_hops[cc];
            if other.lvl.0 == h.lvl.0 {
                let oshr = crate::crossing::shr_at_exec(solved_locs, other.lvl.0, other.mhr.0);
                let ow = hop_widths_exec(
                    &lp.width_by_hop,
                    other.lvl.0,
                    other.mhr.0,
                    other.vl,
                    other.wl,
                );
                if ow.0 > (i64::MAX as u64) || ow.1 > (i64::MAX as u64) {
                    return Err(err_missing);
                }
                if shr >= 1 && oshr == shr - 1 {
                    if (ow.1 as i64) > i64::MAX - 2 * SEP - (w.0 as i64) {
                        return Err(err_missing);
                    }
                    if !has_two_row(
                        &gp.csp,
                        2 * SEP + (ow.1 as i64) + (w.0 as i64),
                        1,
                        AnySol::S(h.n),
                        -1,
                        AnySol::S(other.n),
                    ) {
                        return Err(
                            Error::LayoutError {
                                source: LayoutError::OsqpError {
                                    error: "missing row".to_owned(),
                                },
                            },
                        );
                    }
                }
                if oshr >= 1 && oshr - 1 == shr {
                    if (ow.0 as i64) > i64::MAX - 2 * SEP - (w.1 as i64) {
                        return Err(err_missing);
                    }
                    if !has_two_row(
                        &gp.csp,
                        2 * SEP + (ow.0 as i64) + (w.1 as i64),
                        -1,
                        AnySol::S(h.n),
                        1,
                        AnySol::S(other.n),
                    ) {
                        return Err(
                            Error::LayoutError {
                                source: LayoutError::OsqpError {
                                    error: "missing row".to_owned(),
                                },
                            },
                        );
                    }
                }
            }
            proof {
                assert(hop_hop_sep_ok(
                    gp.csp.constrs@,
                    lp.width_by_hop@,
                    solved_locs@,
                    lp.all_hops@[ca as int],
                    lp.all_hops@[cc as int],
                ));
            }
            cc = cc + 1;
        }
        ca = ca + 1;
    }
    // Confirm the separation rows between control points sharing a node,
    // walked in solved order of their far endpoints.
    let no2 = lp.all_locs.len();
    let mut nl: usize = 0;
    while nl < lp.all_locs.len()
        invariant
            nl <= lp.all_locs@.len(),
            no2 as int == lp.all_locs@.len() as int,
            forall|x: int, g: int, k: int|
                0 <= x < nl && (lp.all_locs@[x].loc is Node) && #[trigger] initial_consec(
                    lp.all_hops@,
                    solved_locs@,
                    lp.all_locs@[x].ovr.0 as int,
                    lp.all_locs@[x].ohr.0 as int,
                    lp.all_locs@.len() as int,
                    g,
                    k,
                ) ==> chain_sep_ok(
                    gp.csp.constrs@,
                    lp.width_by_hop@,
                    lp.all_hops@[g],
                    lp.all_hops@[k],
                ),
            forall|x: int, g: int, k: int|
                0 <= x < nl && (lp.all_locs@[x].loc is Node) && #[trigger] terminal_consec(
                    lp.all_hops@,
                    placement.hops_by_edge@,
                    solved_locs@,
                    lp.all_locs@[x].ovr.0 as int,
                    lp.all_locs@[x].ohr.0 as int,
                    lp.all_locs@.len() as int,
                    g,
                    k,
                ) ==> chain_sep_ok(
                    gp.csp.constrs@,
                    lp.width_by_hop@,
                    lp.all_hops@[g],
                    lp.all_hops@[k],
                ),
        decreases lp.all_locs@.len() - nl,
    {
        let row = lp.all_locs[nl];
        let is_node = matches!(row.loc, Loc::Node(_));
        if is_node {
            let rr = row.ovr.0;
            let oo = row.ohr.0;
            let mut initial: Vec<(usize, usize)> = Vec::new();
            let mut terminal: Vec<(usize, usize)> = Vec::new();
            let mut hk2: usize = 0;
            while hk2 < lp.all_hops.len()
                invariant
                    hk2 <= lp.all_hops@.len(),
                    no2 as int == lp.all_locs@.len() as int,
                    forall|p1: int, p2: int|
                        0 <= p1 < p2 < initial@.len() ==> crate::crossing::keyed_le(
                            #[trigger] initial@[p1],
                            #[trigger] initial@[p2],
                        ),
                    forall|p1: int, p2: int|
                        0 <= p1 < p2 < terminal@.len() ==> crate::crossing::keyed_le(
                            #[trigger] terminal@[p1],
                            #[trigger] terminal@[p2],
                        ),
                    forall|p: int|
                        0 <= p < initial@.len() ==> ((#[trigger] initial@[p]).1 as int) < hk2
                            as int && attached_initial(
                            lp.all_hops@,
                            rr as int,
                            oo as int,
                            no2 as int,
                            initial@[p].1 as int,
                        ) && ((initial@[p]).0 as int) == init_key(
                            solved_locs@,
                            lp.all_hops@[initial@[p].1 as int],
                        ),
                    forall|p: int|
                        0 <= p < terminal@.len() ==> ((#[trigger] terminal@[p]).1 as int) < hk2
                            as int && attached_terminal(
                            lp.all_hops@,
                            rr as int,
                            oo as int,
                            no2 as int,
                            terminal@[p].1 as int,
                        ) && ((terminal@[p]).0 as int) == term_key(
                            placement.hops_by_edge@,
                            solved_locs@,
                            lp.all_hops@[terminal@[p].1 as int].vl,
                            lp.all_hops@[terminal@[p].1 as int].wl,
                        ),
                    forall|p1: int, p2: int|
                        0 <= p1 < p2 < initial@.len() ==> (#[trigger] initial@[p1]).1 != (
                        #[trigger] initial@[p2]).1,
                    forall|p1: int, p2: int|
                        0 <= p1 < p2 < terminal@.len() ==> (#[trigger] terminal@[p1]).1 != (
                        #[trigger] terminal@[p2]).1,
                    forall|j: int|
                        0 <= j < hk2 as int && attached_initial(
                            lp.all_hops@,
                            rr as int,
                            oo as int,
                            no2 as int,
                            j,
                        ) ==> #[trigger] walk_lists(initial@, j),
                    forall|j: int|
                        0 <= j < hk2 as int && attached_terminal(
                            lp.all_hops@,
                            rr as int,
                            oo as int,
                            no2 as int,
                            j,
                        ) ==> #[trigger] walk_lists(terminal@, j),
                decreases lp.all_hops@.len() - hk2,
            {
                let h2 = lp.all_hops[hk2];
                let ghost ipre = initial@;
                let ghost tpre = terminal@;
                if h2.lvl.0 == rr && h2.mhr.0 == oo {
                    if h2.nhr.0 <= no2 {
                        if rr < usize::MAX {
                            let key = crate::crossing::shr_at_exec(solved_locs, rr + 1, h2.nhr.0);
                            let pos = crate::crossing::sorted_insert_keyed(
                                &mut initial,
                                (key, hk2),
                            );
                            proof {
                                assert forall|p: int| 0 <= p < initial@.len() implies ((
                                #[trigger] initial@[p]).1 as int) < hk2 as int + 1
                                    && attached_initial(
                                    lp.all_hops@,
                                    rr as int,
                                    oo as int,
                                    no2 as int,
                                    initial@[p].1 as int,
                                ) && ((initial@[p]).0 as int) == init_key(
                                    solved_locs@,
                                    lp.all_hops@[initial@[p].1 as int],
                                ) by {
                                    if p < pos {
                                        assert(initial@[p] == ipre[p]);
                                    } else if p == pos {
                                        assert(initial@[p] == (key, hk2));
                                    } else {
                                        assert(initial@[p] == ipre[p - 1]);
                                    }
                                }
                                assert forall|p1: int, p2: int|
                                    0 <= p1 < p2 < initial@.len() implies (
                                #[trigger] initial@[p1]).1 != (#[trigger] initial@[p2]).1 by {
                                    let o1: (usize, usize) = if p1 < pos {
                                        ipre[p1]
                                    } else if p1 == pos {
                                        (key, hk2)
                                    } else {
                                        ipre[p1 - 1]
                                    };
                                    let o2: (usize, usize) = if p2 < pos {
                                        ipre[p2]
                                    } else if p2 == pos {
                                        (key, hk2)
                                    } else {
                                        ipre[p2 - 1]
                                    };
                                    assert(initial@[p1] == o1);
                                    assert(initial@[p2] == o2);
                                }
                                assert forall|j: int|
                                    0 <= j < hk2 as int + 1 && attached_initial(
                                        lp.all_hops@,
                                        rr as int,
                                        oo as int,
                                        no2 as int,
                                        j,
                                    ) implies #[trigger] walk_lists(initial@, j) by {
                                    if j < hk2 as int {
                                        assert(walk_lists(ipre, j));
                                        let p = choose|p: int|
                                            0 <= p < ipre.len() && ((#[trigger] ipre[p]).1
                                                as int) == j;
                                        if p < pos {
                                            assert(initial@[p] == ipre[p]);
                                            assert(((initial@[p]).1 as int) == j);
                                        } else {
                                            assert(initial@[p + 1] == ipre[p]);
                                            assert(((initial@[p + 1]).1 as int) == j);
                                        }
                                    } else {
                                        assert(initial@[pos as int] == (key, hk2));
                                        assert(((initial@[pos as int]).1 as int) == j);
                                    }
                                }
                            }
                        }
                    } else {
                        let mut key: usize = 0;
                        let mut ek: usize = 0;
                        while ek < placement.hops_by_edge.len()
                            invariant
                                ek <= placement.hops_by_edge@.len(),
                                key as int == term_key_upto(
                                    placement.hops_by_edge@,
                                    solved_locs@,
                                    h2.vl,
                                    h2.wl,
                                    ek as int,
                                ),
                            decreases placement.hops_by_edge@.len() - ek,
                        {
                            let entry = &placement.hops_by_edge[ek];
                            if entry.0.0 == h2.vl && entry.0.1 == h2.wl {
                                let hl = entry.1.len();
                                if hl > 0 {
                                    let last = entry.1[hl - 1];
                                    key = crate::crossing::shr_at_exec(
                                        solved_locs,
                                        last.0.0,
                                        last.1.0,
                                    );
                                }
                            }
                            ek = ek + 1;
                        }
                        let pos = crate::crossing::sorted_insert_keyed(&mut terminal, (key, hk2));
                        proof {
                            assert forall|p: int| 0 <= p < terminal@.len() implies ((
                            #[trigger] terminal@[p]).1 as int) < hk2 as int + 1
                                && attached_terminal(
                                lp.all_hops@,
                                rr as int,
                                oo as int,
                                no2 as int,
                                terminal@[p].1 as int,
                            ) && ((terminal@[p]).0 as int) == term_key(
                                placement.hops_by_edge@,
                                solved_locs@,
                                lp.all_hops@[terminal@[p].1 as int].vl,
                                lp.all_hops@[terminal@[p].1 as int].wl,
                            ) by {
                                if p < pos {
                                    assert(terminal@[p] == tpre[p]);
                                } else if p == pos {
                                    assert(terminal@[p] == (key, hk2));
                                } else {
                                    assert(terminal@[p] == tpre[p - 1]);
                                }
                            }
                            assert forall|p1: int, p2: int|
                                0 <= p1 < p2 < terminal@.len() implies (
                            #[trigger] terminal@[p1]).1 != (#[trigger] terminal@[p2]).1 by {
                                let o1: (usize, usize) = if p1 < pos {
                                    tpre[p1]
                                } else if p1 == pos {
                                    (key, hk2)
                                } else {
                                    tpre[p1 - 1]
                                };
                                let o2: (usize, usize) = if p2 < pos {
                                    tpre[p2]
                                } else if p2 == pos {
                                    (key, hk2)
                                } else {
                                    tpre[p2 - 1]
                                };
                                assert(terminal@[p1] == o1);
                                assert(terminal@[p2] == o2);
                            }
                            assert forall|j: int|
                                0 <= j < hk2 as int + 1 && attached_terminal(
                                    lp.all_hops@,
                                    rr as int,
                                    oo as int,
                                    no2 as int,
                                    j,
                                ) implies #[trigger] walk_lists(terminal@, j) by {
                                if j < hk2 as int {
                                    assert(walk_lists(tpre, j));
                                    let p = choose|p: int|
                                        0 <= p < tpre.len() && ((#[trigger] tpre[p]).1 as int)
                                            == j;
                                    if p < pos {
                                        assert(terminal@[p] == tpre[p]);
                                        assert(((terminal@[p]).1 as int) == j);
                                    } else {
                                        assert(terminal@[p + 1] == tpre[p]);
                                        assert(((terminal@[p + 1]).1 as int) == j);
                                    }
                                } else {
                                    assert(terminal@[pos as int] == (key, hk2));
                                    assert(((terminal@[pos as int]).1 as int) == j);
                                }
                            }
                        }
                    }
                }
                hk2 = hk2 + 1;
            }
            let mut gi: usize = 0;
            while gi < initial.len()
                invariant
                    gi <= initial@.len(),
                    forall|p: int|
                        0 <= p < initial@.len() ==> ((#[trigger] initial@[p]).1 as int)
                            < lp.all_hops@.len(),
                    forall|p: int|
                        0 <= p < gi && p + 1 < initial@.len() ==> chain_sep_ok(
                            gp.csp.constrs@,
                            lp.width_by_hop@,
                            lp.all_hops@[(#[trigger] initial@[p]).1 as int],
                            lp.all_hops@[initial@[p + 1].1 as int],
                        ),
                decreases initial@.len() - gi,
            {
                if gi + 1 < initial.len() {
                    let hl = lp.all_hops[initial[gi].1];
                    let hr = lp.all_hops[initial[gi + 1].1];
                    let wl = hop_widths_exec(&lp.width_by_hop, hl.lvl.0, hl.mhr.0, hl.vl, hl.wl);
                    let wr = hop_widths_exec(&lp.width_by_hop, hr.lvl.0, hr.mhr.0, hr.vl, hr.wl);
                    if wl.1 > (i64::MAX as u64) || wr.0 > (i64::MAX as u64) || (wl.1 as i64)
                        > i64::MAX - SEP - (wr.0 as i64) {
                        return Err(err_missing);
                    }
                    if !has_two_row(
                        &gp.csp,
                        SEP + (wl.1 as i64) + (wr.0 as i64),
                        -1,
                        AnySol::S(hl.n),
                        1,
                        AnySol::S(hr.n),
                    ) {
                        return Err(
                            Error::LayoutError {
                                source: LayoutError::OsqpError {
                                    error: "missing row".to_owned(),
                                },
                            },
                        );
                    }
                }
                gi = gi + 1;
            }
            let mut gi: usize = 0;
            while gi < terminal.len()
                invariant
                    gi <= terminal@.len(),
                    forall|p: int|
                        0 <= p < terminal@.len() ==> ((#[trigger] terminal@[p]).1 as int)
                            < lp.all_hops@.len(),
                    forall|p: int|
                        0 <= p < gi && p + 1 < terminal@.len() ==> chain_sep_ok(
                            gp.csp.constrs@,
                            lp.width_by_hop@,
                            lp.all_hops@[(#[trigger] terminal@[p]).1 as int],
                            lp.all_hops@[terminal@[p + 1].1 as int],
                        ),
                decreases terminal@.len() - gi,
            {
                if gi + 1 < terminal.len() {
                    let hl = lp.all_hops[terminal[gi].1];
                    let hr = lp.all_hops[terminal[gi + 1].1];
                    let wl = hop_widths_exec(&lp.width_by_hop, hl.lvl.0, hl.mhr.0, hl.vl, hl.wl);
                    let wr = hop_widths_exec(&lp.width_by_hop, hr.lvl.0, hr.mhr.0, hr.vl, hr.wl);
                    if wl.1 > (i64::MAX as u64) || wr.0 > (i64::MAX as u64) || (wl.1 as i64)
                        > i64::MAX - SEP - (wr.0 as i64) {
                        return Err(err_missing);
                    }
                    if !has_two_row(
                        &gp.csp,
                        SEP + (wl.1 as i64) + (wr.0 as i64),
                        -1,
                        AnySol::S(hl.n),
                        1,
                        AnySol::S(hr.n),
                    ) {
                        return Err(
                            Error::LayoutError {
                                source: LayoutError::OsqpError {
                                    error: "missing row".to_owned(),
                                },
                            },
                        );
                    }
                }
                gi = gi + 1;
            }
            proof {
                assert forall|g: int, k: int|
                    initial_consec(
                        lp.all_hops@,
                        solved_locs@,
                        rr as int,
                        oo as int,
                        no2 as int,
                        g,
                        k,
                    ) implies chain_sep_ok(
                    gp.csp.constrs@,
                    lp.width_by_hop@,
                    lp.all_hops@[g],
                    lp.all_hops@[k],
                ) by {
                    assert(walk_lists(initial@, g));
                    assert(walk_lists(initial@, k));
                    let p = choose|p: int|
                        0 <= p < initial@.len() && ((#[trigger] initial@[p]).1 as int) == g;
                    let q = choose|q: int|
                        0 <= q < initial@.len() && ((#[trigger] initial@[q]).1 as int) == k;
                    assert((initial@[p].0 as int) == init_key(solved_locs@, lp.all_hops@[g]));
                    assert((initial@[q].0 as int) == init_key(solved_locs@, lp.all_hops@[k]));
                    if q < p {
                        assert(crate::crossing::keyed_le(initial@[q], initial@[p]));
                        assert(false);
                    }
                    if q == p {
                        assert(false);
                    }
                    if p + 1 < q {
                        assert(crate::crossing::keyed_le(initial@[p], initial@[p + 1]));
                        assert(crate::crossing::keyed_le(initial@[p + 1], initial@[q]));
                        let j = (initial@[p + 1]).1 as int;
                        assert(attached_initial(lp.all_hops@, rr as int, oo as int, no2 as int, j));
                        assert((initial@[p + 1].0 as int) == init_key(
                            solved_locs@,
                            lp.all_hops@[j],
                        ));
                        assert(initial@[p].1 != initial@[p + 1].1);
                        assert(initial@[p + 1].1 != initial@[q].1);
                        assert(akey_lt(
                            init_key(solved_locs@, lp.all_hops@[g]),
                            g,
                            init_key(solved_locs@, lp.all_hops@[j]),
                            j,
                        ));
                        assert(akey_lt(
                            init_key(solved_locs@, lp.all_hops@[j]),
                            j,
                            init_key(solved_locs@, lp.all_hops@[k]),
                            k,
                        ));
                        assert(false);
                    }
                    assert(q == p + 1);
                    assert(chain_sep_ok(
                        gp.csp.constrs@,
                        lp.width_by_hop@,
                        lp.all_hops@[(initial@[p]).1 as int],
                        lp.all_hops@[(initial@[p + 1]).1 as int],
                    ));
                }
                assert forall|g: int, k: int|
                    terminal_consec(
                        lp.all_hops@,
                        placement.hops_by_edge@,
                        solved_locs@,
                        rr as int,
                        oo as int,
                        no2 as int,
                        g,
                        k,
                    ) implies chain_sep_ok(
                    gp.csp.constrs@,
                    lp.width_by_hop@,
                    lp.all_hops@[g],
                    lp.all_hops@[k],
                ) by {
                    assert(walk_lists(terminal@, g));
                    assert(walk_lists(terminal@, k));
                    let p = choose|p: int|
                        0 <= p < terminal@.len() && ((#[trigger] terminal@[p]).1 as int) == g;
                    let q = choose|q: int|
                        0 <= q < terminal@.len() && ((#[trigger] terminal@[q]).1 as int) == k;
                    assert((terminal@[p].0 as int) == term_key(
                        placement.hops_by_edge@,
                        solved_locs@,
                        lp.all_hops@[g].vl,
                        lp.all_hops@[g].wl,
                    ));
                    assert((terminal@[q].0 as int) == term_key(
                        placement.hops_by_edge@,
                        solved_locs@,
                        lp.all_hops@[k].vl,
                        lp.all_hops@[k].wl,
                    ));
                    if q < p {
                        assert(crate::crossing::keyed_le(terminal@[q], terminal@[p]));
                        assert(false);
                    }
                    if q == p {
                        assert(false);
                    }
                    if p + 1 < q {
                        assert(crate::crossing::keyed_le(terminal@[p], terminal@[p + 1]));
                        assert(crate::crossing::keyed_le(terminal@[p + 1], terminal@[q]));
                        let j = (terminal@[p + 1]).1 as int;
                        assert(attached_terminal(
                            lp.all_hops@,
                            rr as int,
                            oo as int,
                            no2 as int,
                            j,
                        ));
                        assert((terminal@[p + 1].0 as int) == term_key(
                            placement.hops_by_edge@,
                            solved_locs@,
                            lp.all_hops@[j].vl,
                            lp.all_hops@[j].wl,
                        ));
                        assert(terminal@[p].1 != terminal@[p + 1].1);
                        assert(terminal@[p + 1].1 != terminal@[q].1);
                        assert(akey_lt(
                            term_key(
                                placement.hops_by_edge@,
                                solved_locs@,
                                lp.all_hops@[g].vl,
                                lp.all_hops@[g].wl,
                            ),
                            g,
                            term_key(
                                placement.hops_by_edge@,
                                solved_locs@,
                                lp.all_hops@[j].vl,
                                lp.all_hops@[j].wl,
                            ),
                            j,
                        ));
                        assert(akey_lt(
                            term_key(
                                placement.hops_by_edge@,
                                solved_locs@,
                                lp.all_hops@[j].vl,
                                lp.all_hops@[j].wl,
                            ),
                            j,
                            term_key(
                                placement.hops_by_edge@,
                                solved_locs@,
                                lp.all_hops@[k].vl,
                                lp.all_hops@[k].wl,
                            ),
                            k,
                        ));
                        assert(false);
                    }
                    assert(q == p + 1);
                    assert(chain_sep_ok(
                        gp.csp.constrs@,
                        lp.width_by_hop@,
                        lp.all_hops@[(terminal@[p]).1 as int],
                        lp.all_hops@[(terminal@[p + 1]).1 as int],
                    ));
                }
            }
        }
        nl = nl + 1;
    }
    Ok(gp)
}
/// Whether the rows hold a minimum-width row for the location with a
/// bound at least `w`.
fn has_min_width_row(csp: &Constraints<AnySol>, n: LocSol, w: i64) -> (r: bool)
    ensures
        r == exists|i: int|
            0 <= i < csp.constrs@.len() && (#[trigger] csp.constrs@[i]).upper is None
                && csp.constrs@[i].comb@.len() == 2 && csp.constrs@[i].comb@[0].coeff == -1
                && csp.constrs@[i].comb@[0].var.sol == AnySol::L(n)
                && csp.constrs@[i].comb@[1].coeff == 1 && csp.constrs@[i].comb@[1].var.sol
                == AnySol::R(n) && csp.constrs@[i].lower >= 0 && csp.constrs@[i].lower >= w,
{
    let mut i: usize = 0;
    while i < csp.constrs.len()
        invariant
            i <= csp.constrs@.len(),
            forall|x: int|
                0 <= x < i ==> !((#[trigger] csp.constrs@[x]).upper is None
                    && csp.constrs@[x].comb@.len() == 2 && csp.constrs@[x].comb@[0].coeff == -1
                    && csp.constrs@[x].comb@[0].var.sol == AnySol::L(n)
                    && csp.constrs@[x].comb@[1].coeff == 1 && csp.constrs@[x].comb@[1].var.sol
                    == AnySol::R(n) && csp.constrs@[x].lower >= 0 && csp.constrs@[x].lower >= w),
        decreases csp.constrs@.len() - i,
    {
        let row = &csp.constrs[i];
        if row.lower >= 0 && row.lower >= w && matches!(row.upper, Option::None)
            && row.comb.len() == 2 {
            let m0 = row.comb[0];
            let m1 = row.comb[1];
            if m0.coeff == -1 && m0.var.sol.eq_sol(&AnySol::L(n)) && m1.coeff == 1
                && m1.var.sol.eq_sol(&AnySol::R(n)) {
                return true;
            }
        }
        i = i + 1;
    }
    false
}

} // verus!
