//! Crossing minimization: encode horizontal ordering as an integer
//! program and recover per-rank permutations from an integral solution.
//!
//! For every rank and ordered pair of positions there is a Boolean
//! ordering variable, constrained to be antisymmetric and transitive; for
//! every eligible pair of hops at a rank there is a crossing indicator
//! forced up by two covering inequalities. The objective sums the
//! indicators. From an integral point the solved positions are recovered
//! by row sums, and the reported crossing number is recounted directly on
//! the recovered permutation, so it equals the count the permutation
//! actually exhibits.

use vstd::prelude::*;

use crate::algebra::{vars_enumerated, Constraint, Constraints, Fresh, Monomial, Sol, Vars};
use crate::error::{Error, LayoutError};
use crate::ilp::{comb_bounded, ILP};
use crate::placement::{Hop, Placement};

verus! {

/// A solution variable of the crossing program: an ordering variable
/// `X(rank, a, b)` ("position a is left of position b"), a crossing
/// indicator `C(rank, u1, v1, u2, v2)`, or an auxiliary variable.
#[derive(Clone, Copy, Debug, PartialEq, Eq, Structural, Hash)]
pub enum AnySol {
    X(usize, usize, usize),
    C(usize, usize, usize, usize, usize),
    T(usize),
}

impl Fresh for AnySol {
    open spec fn fresh_spec(index: usize) -> Self {
        AnySol::T(index)
    }

    fn fresh(index: usize) -> Self {
        AnySol::T(index)
    }
}

impl Sol for AnySol {
    fn eq_sol(&self, other: &Self) -> (r: bool) {
        *self == *other
    }
}

/// Two hops are eligible to cross: they share neither endpoint position.
pub open spec fn hops_eligible(h1: Hop, h2: Hop) -> bool {
    h1.mhr.0 != h2.mhr.0 && h1.nhr.0 != h2.nhr.0
}

/// The solved position of `(rank, position)`, or zero when out of range.
pub open spec fn shr_at(sol: Seq<Vec<usize>>, r: int, o: int) -> int {
    if 0 <= r < sol.len() && 0 <= o < sol[r]@.len() {
        sol[r]@[o] as int
    } else {
        0
    }
}

/// Whether the two hops cross under the solved positions: their upper
/// endpoints are ordered one way and their lower endpoints the other.
pub open spec fn hops_crossed(sol: Seq<Vec<usize>>, h1: Hop, h2: Hop) -> bool {
    let l = h1.lvl.0 as int;
    let u1 = shr_at(sol, l, h1.mhr.0 as int);
    let u2 = shr_at(sol, l, h2.mhr.0 as int);
    let v1 = shr_at(sol, l + 1, h1.nhr.0 as int);
    let v2 = shr_at(sol, l + 1, h2.nhr.0 as int);
    (u1 < u2 && v2 < v1) || (u2 < u1 && v1 < v2)
}

/// One when the eligible pair crosses, zero otherwise.
pub open spec fn cross_ind(sol: Seq<Vec<usize>>, h1: Hop, h2: Hop) -> int {
    if hops_eligible(h1, h2) && hops_crossed(sol, h1, h2) {
        1
    } else {
        0
    }
}

/// Crossings of hop `i` against hops `i+1 .. j` of the level.
pub open spec fn count_row(sol: Seq<Vec<usize>>, hops: Seq<Hop>, i: int, j: int) -> int
    decreases j,
{
    if j <= i + 1 || j > hops.len() || i < 0 {
        0
    } else {
        count_row(sol, hops, i, j - 1) + cross_ind(sol, hops[i], hops[j - 1])
    }
}

/// Crossings among the first `i` hops of the level.
pub open spec fn count_upto(sol: Seq<Vec<usize>>, hops: Seq<Hop>, i: int) -> int
    decreases i,
{
    if i <= 0 || i > hops.len() {
        0
    } else {
        count_upto(sol, hops, i - 1) + count_row(sol, hops, i - 1, hops.len() as int)
    }
}

/// Crossings within one level.
pub open spec fn count_level(sol: Seq<Vec<usize>>, hops: Seq<Hop>) -> int {
    count_upto(sol, hops, hops.len() as int)
}

/// Crossings within the first `l` levels.
pub open spec fn count_levels(sol: Seq<Vec<usize>>, hbl: Seq<Vec<Hop>>, l: int) -> int
    decreases l,
{
    if l <= 0 || l > hbl.len() {
        0
    } else {
        count_levels(sol, hbl, l - 1) + count_level(sol, hbl[l - 1]@)
    }
}

/// How many unordered eligible hop pairs cross under the solved
/// positions, summed over every level.
pub open spec fn crossing_count(sol: Seq<Vec<usize>>, hbl: Seq<Vec<Hop>>) -> int {
    count_levels(sol, hbl, hbl.len() as int)
}

proof fn lemma_count_row_bounds(sol: Seq<Vec<usize>>, hops: Seq<Hop>, i: int, j: int)
    ensures
        0 <= count_row(sol, hops, i, j) <= (if j <= i + 1 {
            0
        } else {
            j - i - 1
        }),
    decreases j,
{
    if j <= i + 1 || j > hops.len() || i < 0 {
    } else {
        lemma_count_row_bounds(sol, hops, i, j - 1);
    }
}

proof fn lemma_count_upto_bounds(sol: Seq<Vec<usize>>, hops: Seq<Hop>, i: int)
    ensures
        0 <= count_upto(sol, hops, i) <= (if i <= 0 {
            0
        } else {
            i * hops.len()
        }),
    decreases i,
{
    if i <= 0 || i > hops.len() {
        if i > hops.len() {
            assert(i * hops.len() >= 0) by (nonlinear_arith)
                requires
                    i > 0,
                    hops.len() >= 0,
            ;
        }
    } else {
        lemma_count_upto_bounds(sol, hops, i - 1);
        lemma_count_row_bounds(sol, hops, i - 1, hops.len() as int);
        assert((i - 1) * hops.len() + hops.len() == i * hops.len()) by (nonlinear_arith);
    }
}

/// No level with at most one hop contributes a crossing.
proof fn lemma_count_levels_trivial(sol: Seq<Vec<usize>>, hbl: Seq<Vec<Hop>>, l: int)
    requires
        forall|x: int| 0 <= x < hbl.len() ==> (#[trigger] hbl[x]@).len() <= 1,
    ensures
        count_levels(sol, hbl, l) == 0,
    decreases l,
{
    if l <= 0 || l > hbl.len() {
    } else {
        lemma_count_levels_trivial(sol, hbl, l - 1);
        let h = hbl[l - 1]@;
        assert(h.len() <= 1);
        if h.len() == 0 {
            assert(count_upto(sol, h, 0) == 0);
        } else {
            assert(count_row(sol, h, 0, 1) == 0);
            assert(count_upto(sol, h, 1) == count_upto(sol, h, 0) + count_row(sol, h, 0, 1));
            assert(count_upto(sol, h, 0) == 0);
        }
    }
}

/// One slot per ordered hop pair of each level: an upper bound on any
/// crossing count, and on every partial sum the counter passes through.
pub open spec fn pair_budget(hbl: Seq<Vec<Hop>>, l: int) -> int
    decreases l,
{
    if l <= 0 || l > hbl.len() {
        0
    } else {
        pair_budget(hbl, l - 1) + hbl[l - 1]@.len() * hbl[l - 1]@.len()
    }
}

/// The budget over every level.
pub open spec fn hops_pair_budget(hbl: Seq<Vec<Hop>>) -> int {
    pair_budget(hbl, hbl.len() as int)
}

proof fn lemma_count_row_mono(sol: Seq<Vec<usize>>, hops: Seq<Hop>, i: int, j1: int, j2: int)
    requires
        0 <= i,
        j1 <= j2 <= hops.len(),
    ensures
        count_row(sol, hops, i, j1) <= count_row(sol, hops, i, j2),
    decreases j2,
{
    if j2 <= i + 1 {
        lemma_count_row_bounds(sol, hops, i, j1);
    } else if j1 == j2 {
    } else {
        lemma_count_row_mono(sol, hops, i, j1, j2 - 1);
    }
}

proof fn lemma_count_upto_mono(sol: Seq<Vec<usize>>, hops: Seq<Hop>, i1: int, i2: int)
    requires
        0 <= i1 <= i2 <= hops.len(),
    ensures
        count_upto(sol, hops, i1) <= count_upto(sol, hops, i2),
    decreases i2,
{
    if i1 == i2 {
    } else {
        lemma_count_upto_mono(sol, hops, i1, i2 - 1);
        lemma_count_row_bounds(sol, hops, i2 - 1, hops.len() as int);
    }
}

proof fn lemma_count_levels_mono(sol: Seq<Vec<usize>>, hbl: Seq<Vec<Hop>>, l1: int, l2: int)
    requires
        0 <= l1 <= l2 <= hbl.len(),
    ensures
        count_levels(sol, hbl, l1) <= count_levels(sol, hbl, l2),
    decreases l2,
{
    if l1 == l2 {
    } else {
        lemma_count_levels_mono(sol, hbl, l1, l2 - 1);
        lemma_count_upto_bounds(sol, hbl[l2 - 1]@, hbl[l2 - 1]@.len() as int);
    }
}

proof fn lemma_count_levels_le_budget(sol: Seq<Vec<usize>>, hbl: Seq<Vec<Hop>>, l: int)
    requires
        0 <= l <= hbl.len(),
    ensures
        count_levels(sol, hbl, l) <= pair_budget(hbl, l),
    decreases l,
{
    if l > 0 {
        lemma_count_levels_le_budget(sol, hbl, l - 1);
        lemma_count_upto_bounds(sol, hbl[l - 1]@, hbl[l - 1]@.len() as int);
    }
}

/// The value the integral point gives a solution variable, or zero when
/// the variable was never issued.
/// The value the point assigns to a registered identifier, and zero for
/// one the registry or the point does not cover.
pub open spec fn xval(vars: Vars<AnySol>, xs: Seq<i64>, s: AnySol) -> int {
    if vars.has(s) && vars.pos_of(s) < xs.len() {
        xs[vars.pos_of(s)] as int
    } else {
        0
    }
}

/// The row-sum key of object `a` at rank `rk` over the first `b` objects:
/// how many others the point orders before it.
pub open spec fn xkey_upto(vars: Vars<AnySol>, xs: Seq<i64>, rk: usize, a: usize, b: int) -> int
    decreases b,
{
    if b <= 0 {
        0
    } else {
        xkey_upto(vars, xs, rk, a, b - 1) + (if (b - 1) != a as int && xval(
            vars,
            xs,
            AnySol::X(rk, (b - 1) as usize, a),
        ) == 1 {
            1int
        } else {
            0int
        })
    }
}

/// The row-sum key of object `a` at rank `rk` over all `n` objects.
pub open spec fn xkey(vars: Vars<AnySol>, xs: Seq<i64>, rk: usize, a: usize, n: int) -> int {
    xkey_upto(vars, xs, rk, a, n)
}

pub fn sol_value(vars: &Vars<AnySol>, xs: &Vec<i64>, s: AnySol) -> (r: i64)
    requires
        vars.wf(),
    ensures
        vars.has(s) && vars.pos_of(s) < xs@.len() ==> r == xs@[vars.pos_of(s)],
        vars.has(s) && vars.pos_of(s) >= xs@.len() ==> r == 0,
        !vars.has(s) ==> r == 0,
        r as int == xval(*vars, xs@, s),
{
    let mut i: usize = 0;
    while i < vars.sols.len()
        invariant
            vars.wf(),
            i <= vars.sols@.len(),
            forall|j: int| 0 <= j < i ==> vars.sols@[j] != s,
        decreases vars.sols@.len() - i,
    {
        if vars.sols[i].eq_sol(&s) {
            proof {
                assert(vars.sols@[i as int] == s);
                assert(vars.has(s));
                let p = vars.pos_of(s);
                assert(vars.sols@[p] == s);
            }
            proof {
                let p = vars.pos_of(s);
                if p != i {
                    assert(vars.sols@[p] == s && vars.sols@[i as int] == s);
                    assert(false);
                }
            }
            if i < xs.len() {
                return xs[i];
            }
            return 0;
        }
        i = i + 1;
    }
    proof {
        if vars.has(s) {
            let p = vars.pos_of(s);
            assert(vars.sols@[p] == s);
            assert(false);
        }
    }
    0
}


/// The antisymmetry row of an ordered pair: `x[l,a,b] + x[l,b,a] == 1`.
pub open spec fn antisym_ok(csp: Seq<Constraint<AnySol>>, l: usize, a: usize, b: usize) -> bool {
    exists|i: int|
        0 <= i < csp.len() && (#[trigger] csp[i]).lower == 1 && csp[i].upper == Some(1i64)
            && csp[i].comb@.len() == 2 && csp[i].comb@[0].coeff == 1 && csp[i].comb@[0].var.sol
            == AnySol::X(l, a, b) && csp[i].comb@[1].coeff == 1 && csp[i].comb@[1].var.sol
            == AnySol::X(l, b, a)
}

/// The transitivity row of an ordered triple:
/// `-1 <= -x[l,c,b] - x[l,b,a] + x[l,c,a]`.
pub open spec fn trans_ok(csp: Seq<Constraint<AnySol>>, l: usize, a: usize, b: usize, c: usize)
    -> bool {
    exists|i: int|
        0 <= i < csp.len() && (#[trigger] csp[i]).lower == -1 && csp[i].upper is None
            && csp[i].comb@.len() == 3 && csp[i].comb@[0].coeff == -1
            && csp[i].comb@[0].var.sol == AnySol::X(l, c, b) && csp[i].comb@[1].coeff == -1
            && csp[i].comb@[1].var.sol == AnySol::X(l, b, a) && csp[i].comb@[2].coeff == 1
            && csp[i].comb@[2].var.sol == AnySol::X(l, c, a)
}

/// One covering row of a crossing indicator:
/// `c + x[l,ua,ub] + x[l+1,va,vb] >= 1`.
pub open spec fn cover_row_ok(
    csp: Seq<Constraint<AnySol>>,
    c: AnySol,
    xa: AnySol,
    xb: AnySol,
) -> bool {
    exists|i: int|
        0 <= i < csp.len() && (#[trigger] csp[i]).lower == 1 && csp[i].upper is None
            && csp[i].comb@.len() == 3 && csp[i].comb@[0].coeff == 1 && csp[i].comb@[0].var.sol
            == c && csp[i].comb@[1].coeff == 1 && csp[i].comb@[1].var.sol == xa
            && csp[i].comb@[2].coeff == 1 && csp[i].comb@[2].var.sol == xb
}

/// The two covering rows of an eligible hop pair at level `l`.
pub open spec fn covering_ok(csp: Seq<Constraint<AnySol>>, l: usize, h1: Hop, h2: Hop) -> bool {
    (l as int) + 1 <= usize::MAX ==> {
        let u1 = h1.mhr.0;
        let v1 = h1.nhr.0;
        let u2 = h2.mhr.0;
        let v2 = h2.nhr.0;
        let c = AnySol::C(l, u1, v1, u2, v2);
        &&& cover_row_ok(csp, c, AnySol::X(l, u2, u1), AnySol::X((l + 1) as usize, v1, v2))
        &&& cover_row_ok(csp, c, AnySol::X(l, u1, u2), AnySol::X((l + 1) as usize, v2, v1))
    }
}

/// Rows only grow, so an established antisymmetry row stays established.
proof fn lemma_antisym_frame(pre: Seq<Constraint<AnySol>>, cur: Seq<Constraint<AnySol>>)
    requires
        cur.len() >= pre.len(),
        forall|x: int| 0 <= x < pre.len() ==> cur[x] == pre[x],
    ensures
        forall|l: usize, a: usize, b: usize|
            #![trigger antisym_ok(cur, l, a, b)]
            antisym_ok(pre, l, a, b) ==> antisym_ok(cur, l, a, b),
{
    assert forall|l: usize, a: usize, b: usize|
        antisym_ok(pre, l, a, b) implies antisym_ok(cur, l, a, b) by {
        let i = choose|i: int|
            0 <= i < pre.len() && (#[trigger] pre[i]).lower == 1 && pre[i].upper == Some(1i64)
                && pre[i].comb@.len() == 2 && pre[i].comb@[0].coeff == 1
                && pre[i].comb@[0].var.sol == AnySol::X(l, a, b) && pre[i].comb@[1].coeff == 1
                && pre[i].comb@[1].var.sol == AnySol::X(l, b, a);
        assert(cur[i] == pre[i]);
    }
}

/// Rows only grow, so an established transitivity row stays established.
proof fn lemma_trans_frame(pre: Seq<Constraint<AnySol>>, cur: Seq<Constraint<AnySol>>)
    requires
        cur.len() >= pre.len(),
        forall|x: int| 0 <= x < pre.len() ==> cur[x] == pre[x],
    ensures
        forall|l: usize, a: usize, b: usize, c: usize|
            #![trigger trans_ok(cur, l, a, b, c)]
            trans_ok(pre, l, a, b, c) ==> trans_ok(cur, l, a, b, c),
{
    assert forall|l: usize, a: usize, b: usize, c: usize|
        trans_ok(pre, l, a, b, c) implies trans_ok(cur, l, a, b, c) by {
        let i = choose|i: int|
            0 <= i < pre.len() && (#[trigger] pre[i]).lower == -1 && pre[i].upper is None
                && pre[i].comb@.len() == 3 && pre[i].comb@[0].coeff == -1
                && pre[i].comb@[0].var.sol == AnySol::X(l, c, b) && pre[i].comb@[1].coeff == -1
                && pre[i].comb@[1].var.sol == AnySol::X(l, b, a) && pre[i].comb@[2].coeff == 1
                && pre[i].comb@[2].var.sol == AnySol::X(l, c, a);
        assert(cur[i] == pre[i]);
    }
}

/// Rows only grow, so established covering rows stay established.
proof fn lemma_cover_frame(pre: Seq<Constraint<AnySol>>, cur: Seq<Constraint<AnySol>>)
    requires
        cur.len() >= pre.len(),
        forall|x: int| 0 <= x < pre.len() ==> cur[x] == pre[x],
    ensures
        forall|l: usize, h1: Hop, h2: Hop|
            #![trigger covering_ok(cur, l, h1, h2)]
            covering_ok(pre, l, h1, h2) ==> covering_ok(cur, l, h1, h2),
{
    assert forall|c: AnySol, xa: AnySol, xb: AnySol|
        #![trigger cover_row_ok(cur, c, xa, xb)]
        cover_row_ok(pre, c, xa, xb) implies cover_row_ok(cur, c, xa, xb) by {
        let i = choose|i: int|
            0 <= i < pre.len() && (#[trigger] pre[i]).lower == 1 && pre[i].upper is None
                && pre[i].comb@.len() == 3 && pre[i].comb@[0].coeff == 1
                && pre[i].comb@[0].var.sol == c && pre[i].comb@[1].coeff == 1
                && pre[i].comb@[1].var.sol == xa && pre[i].comb@[2].coeff == 1
                && pre[i].comb@[2].var.sol == xb;
        assert(cur[i] == pre[i]);
    }
}

/// Build the crossing-minimization integer program of the placement:
/// antisymmetry and transitivity rows over the ordering variables of
/// every rank, two covering rows per eligible hop pair, 0-1 bounds for
/// every variable, and the sum of the crossing indicators as objective.
/// A unit 0-1 bound row for the identifier: `0 <= 1 * s <= 1`.
pub open spec fn unit_bound_ok(csp: Seq<Constraint<AnySol>>, s: AnySol) -> bool {
    exists|i: int|
        0 <= i < csp.len() && (#[trigger] csp[i]).lower == 0 && csp[i].upper == Some(1i64)
            && csp[i].comb@.len() == 1 && csp[i].comb@[0].coeff == 1 && csp[i].comb@[0].var.sol
            == s
}

/// The objective mentions the identifier.
pub open spec fn obj_has(obj: Seq<Monomial<AnySol>>, s: AnySol) -> bool {
    exists|x: int| 0 <= x < obj.len() && (#[trigger] obj[x]).var.sol == s
}

/// Unit bound rows survive appending further rows.
proof fn lemma_bound_frame(pre: Seq<Constraint<AnySol>>, cur: Seq<Constraint<AnySol>>)
    requires
        pre.len() <= cur.len(),
        forall|i: int| 0 <= i < pre.len() ==> cur[i] == pre[i],
    ensures
        forall|s: AnySol|
            #![trigger unit_bound_ok(cur, s)]
            unit_bound_ok(pre, s) ==> unit_bound_ok(cur, s),
{
    assert forall|s: AnySol| unit_bound_ok(pre, s) implies unit_bound_ok(cur, s) by {
        let i = choose|i: int|
            0 <= i < pre.len() && (#[trigger] pre[i]).lower == 0 && pre[i].upper == Some(1i64)
                && pre[i].comb@.len() == 1 && pre[i].comb@[0].coeff == 1
                && pre[i].comb@[0].var.sol == s;
        assert(cur[i] == pre[i]);
        assert(0 <= i < cur.len() && cur[i].lower == 0 && cur[i].upper == Some(1i64)
            && cur[i].comb@.len() == 1 && cur[i].comb@[0].coeff == 1 && cur[i].comb@[0].var.sol
            == s);
    }
}

pub fn build_crossing_ilp(placement: &Placement) -> (r: ILP<AnySol>)
    ensures
        r.vars.wf(),
        forall|i: int|
            0 <= i < r.csp.constrs@.len() ==> comb_bounded(
                (#[trigger] r.csp.constrs@[i]).comb@,
            ),
        forall|x: int|
            0 <= x < r.obj@.len() ==> (#[trigger] r.obj@[x]).coeff == 1 && (r.obj@[x].var.index
                as int) < r.vars.sols@.len() && r.vars.sols@[r.obj@[x].var.index as int]
                == r.obj@[x].var.sol && (r.obj@[x].var.sol is C),
        forall|x1: int, x2: int|
            0 <= x1 < x2 < r.obj@.len() ==> (#[trigger] r.obj@[x1]).var.index != (
            #[trigger] r.obj@[x2]).var.index,
        forall|i: int|
            0 <= i < r.vars.sols@.len() && ((#[trigger] r.vars.sols@[i]) is C) ==> obj_has(
                r.obj@,
                r.vars.sols@[i],
            ),
        forall|i: int|
            0 <= i < r.vars.sols@.len() ==> #[trigger] unit_bound_ok(
                r.csp.constrs@,
                r.vars.sols@[i],
            ),
        forall|l: int, a: int, b: int|
            0 <= l < placement.locs_by_level@.len() && 0 <= a
                < placement.locs_by_level@[l]@.len() && 0 <= b
                < placement.locs_by_level@[l]@.len() && a != b ==> #[trigger] antisym_ok(
                r.csp.constrs@,
                l as usize,
                a as usize,
                b as usize,
            ),
        forall|l: int, i: int, j: int|
            0 <= l < placement.hops_by_level@.len() && 0 <= i
                < placement.hops_by_level@[l]@.len() && 0 <= j
                < placement.hops_by_level@[l]@.len() && hops_eligible(
                placement.hops_by_level@[l]@[i],
                placement.hops_by_level@[l]@[j],
            ) ==> #[trigger] covering_ok(
                r.csp.constrs@,
                l as usize,
                placement.hops_by_level@[l]@[i],
                placement.hops_by_level@[l]@[j],
            ),
        forall|l: int, a: int, b: int, c: int|
            0 <= l < placement.locs_by_level@.len() && 0 <= a
                < placement.locs_by_level@[l]@.len() && 0 <= b
                < placement.locs_by_level@[l]@.len() && 0 <= c
                < placement.locs_by_level@[l]@.len() && a != b && c != a && c != b
                ==> #[trigger] trans_ok(
                r.csp.constrs@,
                l as usize,
                a as usize,
                b as usize,
                c as usize,
            ),
{
    let mut vars: Vars<AnySol> = Vars::new();
    let mut csp: Constraints<AnySol> = Constraints::new();
    let mut l: usize = 0;
    while l < placement.locs_by_level.len()
        invariant
            vars.wf(),
            l <= placement.locs_by_level@.len(),
            forall|i: int|
                0 <= i < csp.constrs@.len() ==> comb_bounded(
                    (#[trigger] csp.constrs@[i]).comb@,
                ),
            forall|ll: int, aa: int, bb: int|
                0 <= ll < l && 0 <= aa < placement.locs_by_level@[ll]@.len() && 0 <= bb
                    < placement.locs_by_level@[ll]@.len() && aa != bb ==> #[trigger] antisym_ok(
                    csp.constrs@,
                    ll as usize,
                    aa as usize,
                    bb as usize,
                ),
            forall|ll: int, aa: int, bb: int, cc: int|
                0 <= ll < l && 0 <= aa < placement.locs_by_level@[ll]@.len() && 0 <= bb
                    < placement.locs_by_level@[ll]@.len() && 0 <= cc
                    < placement.locs_by_level@[ll]@.len() && aa != bb && cc != aa && cc != bb
                    ==> #[trigger] trans_ok(
                    csp.constrs@,
                    ll as usize,
                    aa as usize,
                    bb as usize,
                    cc as usize,
                ),
        decreases placement.locs_by_level@.len() - l,
    {
        let n = placement.locs_by_level[l].len();
        let mut a: usize = 0;
        while a < n
            invariant
                vars.wf(),
                l < placement.locs_by_level@.len(),
                n == placement.locs_by_level@[l as int]@.len(),
                a <= n,
                forall|i: int|
                    0 <= i < csp.constrs@.len() ==> comb_bounded(
                        (#[trigger] csp.constrs@[i]).comb@,
                    ),
                forall|ll: int, aa: int, bb: int|
                    0 <= ll < l && 0 <= aa < placement.locs_by_level@[ll]@.len() && 0 <= bb
                        < placement.locs_by_level@[ll]@.len() && aa != bb
                        ==> #[trigger] antisym_ok(
                        csp.constrs@,
                        ll as usize,
                        aa as usize,
                        bb as usize,
                    ),
                forall|aa: int, bb: int|
                    0 <= aa < a && 0 <= bb < n && aa != bb ==> #[trigger] antisym_ok(
                        csp.constrs@,
                        l,
                        aa as usize,
                        bb as usize,
                    ),
                forall|ll: int, aa: int, bb: int, cc: int|
                    0 <= ll < l && 0 <= aa < placement.locs_by_level@[ll]@.len() && 0 <= bb
                        < placement.locs_by_level@[ll]@.len() && 0 <= cc
                        < placement.locs_by_level@[ll]@.len() && aa != bb && cc != aa && cc != bb
                        ==> #[trigger] trans_ok(
                        csp.constrs@,
                        ll as usize,
                        aa as usize,
                        bb as usize,
                        cc as usize,
                    ),
                forall|aa: int, bb: int, cc: int|
                    0 <= aa < a && 0 <= bb < n && 0 <= cc < n && aa != bb && cc != aa && cc != bb
                        ==> #[trigger] trans_ok(
                        csp.constrs@,
                        l,
                        aa as usize,
                        bb as usize,
                        cc as usize,
                    ),
            decreases n - a,
        {
            let mut b: usize = 0;
            while b < n
                invariant
                    vars.wf(),
                    l < placement.locs_by_level@.len(),
                    n == placement.locs_by_level@[l as int]@.len(),
                    a < n,
                    b <= n,
                    forall|i: int|
                        0 <= i < csp.constrs@.len() ==> comb_bounded(
                            (#[trigger] csp.constrs@[i]).comb@,
                        ),
                    forall|ll: int, aa: int, bb: int|
                        0 <= ll < l && 0 <= aa < placement.locs_by_level@[ll]@.len() && 0 <= bb
                            < placement.locs_by_level@[ll]@.len() && aa != bb
                            ==> #[trigger] antisym_ok(
                            csp.constrs@,
                            ll as usize,
                            aa as usize,
                            bb as usize,
                        ),
                    forall|aa: int, bb: int|
                        0 <= aa < a && 0 <= bb < n && aa != bb ==> #[trigger] antisym_ok(
                            csp.constrs@,
                            l,
                            aa as usize,
                            bb as usize,
                        ),
                    forall|bb: int|
                        0 <= bb < b && bb != a ==> #[trigger] antisym_ok(
                            csp.constrs@,
                            l,
                            a,
                            bb as usize,
                        ),
                    forall|ll: int, aa: int, bb: int, cc: int|
                        0 <= ll < l && 0 <= aa < placement.locs_by_level@[ll]@.len() && 0 <= bb
                            < placement.locs_by_level@[ll]@.len() && 0 <= cc
                            < placement.locs_by_level@[ll]@.len() && aa != bb && cc != aa && cc
                            != bb ==> #[trigger] trans_ok(
                            csp.constrs@,
                            ll as usize,
                            aa as usize,
                            bb as usize,
                            cc as usize,
                        ),
                    forall|aa: int, bb: int, cc: int|
                        0 <= aa < a && 0 <= bb < n && 0 <= cc < n && aa != bb && cc != aa && cc
                            != bb ==> #[trigger] trans_ok(
                            csp.constrs@,
                            l,
                            aa as usize,
                            bb as usize,
                            cc as usize,
                        ),
                    forall|bb: int, cc: int|
                        0 <= bb < b && 0 <= cc < n && bb != a && cc != a && cc != bb
                            ==> #[trigger] trans_ok(
                            csp.constrs@,
                            l,
                            a,
                            bb as usize,
                            cc as usize,
                        ),
                decreases n - b,
            {
                if a != b {
                    let xab = vars.get(AnySol::X(l, a, b));
                    let xba = vars.get(AnySol::X(l, b, a));
                    let mut lc: Vec<Monomial<AnySol>> = Vec::new();
                    lc.push(xab);
                    lc.push(xba);
                    let ghost pre = csp.constrs@;
                    csp.eqc(&lc, 1);
                    proof {
                        lemma_antisym_frame(pre, csp.constrs@);
                        lemma_trans_frame(pre, csp.constrs@);
                        assert(csp.constrs@.last().comb@ =~= lc@);
                        assert(antisym_ok(csp.constrs@, l, a, b));
                        assert forall|i: int|
                            0 <= i < csp.constrs@.len() implies comb_bounded(
                            (#[trigger] csp.constrs@[i]).comb@,
                        ) by {
                            if i < pre.len() {
                                assert(csp.constrs@[i] == pre[i]);
                            } else {
                                assert(csp.constrs@[i].comb@ =~= lc@);
                            }
                        }
                    }
                    let mut c: usize = 0;
                    while c < n
                        invariant
                            vars.wf(),
                            l < placement.locs_by_level@.len(),
                            n == placement.locs_by_level@[l as int]@.len(),
                            a < n,
                            b < n,
                            a != b,
                            c <= n,
                            antisym_ok(csp.constrs@, l, a, b),
                            forall|ll: int, aa: int, bb: int, cc: int|
                                0 <= ll < l && 0 <= aa < placement.locs_by_level@[ll]@.len()
                                    && 0 <= bb < placement.locs_by_level@[ll]@.len() && 0 <= cc
                                    < placement.locs_by_level@[ll]@.len() && aa != bb && cc
                                    != aa && cc != bb ==> #[trigger] trans_ok(
                                    csp.constrs@,
                                    ll as usize,
                                    aa as usize,
                                    bb as usize,
                                    cc as usize,
                                ),
                            forall|aa: int, bb: int, cc: int|
                                0 <= aa < a && 0 <= bb < n && 0 <= cc < n && aa != bb && cc
                                    != aa && cc != bb ==> #[trigger] trans_ok(
                                    csp.constrs@,
                                    l,
                                    aa as usize,
                                    bb as usize,
                                    cc as usize,
                                ),
                            forall|bb: int, cc: int|
                                0 <= bb < b && 0 <= cc < n && bb != a && cc != a && cc != bb
                                    ==> #[trigger] trans_ok(
                                    csp.constrs@,
                                    l,
                                    a,
                                    bb as usize,
                                    cc as usize,
                                ),
                            forall|cc: int|
                                0 <= cc < c && cc != a && cc != b ==> #[trigger] trans_ok(
                                    csp.constrs@,
                                    l,
                                    a,
                                    b,
                                    cc as usize,
                                ),
                            forall|i: int|
                                0 <= i < csp.constrs@.len() ==> comb_bounded(
                                    (#[trigger] csp.constrs@[i]).comb@,
                                ),
                            forall|ll: int, aa: int, bb: int|
                                0 <= ll < l && 0 <= aa < placement.locs_by_level@[ll]@.len()
                                    && 0 <= bb < placement.locs_by_level@[ll]@.len() && aa != bb
                                    ==> #[trigger] antisym_ok(
                                    csp.constrs@,
                                    ll as usize,
                                    aa as usize,
                                    bb as usize,
                                ),
                            forall|aa: int, bb: int|
                                0 <= aa < a && 0 <= bb < n && aa != bb ==> #[trigger] antisym_ok(
                                    csp.constrs@,
                                    l,
                                    aa as usize,
                                    bb as usize,
                                ),
                            forall|bb: int|
                                0 <= bb < b && bb != a ==> #[trigger] antisym_ok(
                                    csp.constrs@,
                                    l,
                                    a,
                                    bb as usize,
                                ),
                        decreases n - c,
                    {
                        if c != a && c != b {
                            let xcb = vars.get(AnySol::X(l, c, b)).negate();
                            let xba2 = vars.get(AnySol::X(l, b, a)).negate();
                            let xca = vars.get(AnySol::X(l, c, a));
                            let mut comb: Vec<Monomial<AnySol>> = Vec::new();
                            comb.push(xcb);
                            comb.push(xba2);
                            comb.push(xca);
                            let ghost pre2 = csp.constrs@;
                            let ghost comb_snap = comb@;
                            csp.push(Constraint { lower: -1, comb, upper: None });
                            proof {
                                lemma_antisym_frame(pre2, csp.constrs@);
                                lemma_trans_frame(pre2, csp.constrs@);
                                assert(csp.constrs@.last().comb@ =~= comb_snap);
                                assert(trans_ok(csp.constrs@, l, a, b, c));
                                assert forall|i: int|
                                    0 <= i < csp.constrs@.len() implies comb_bounded(
                                    (#[trigger] csp.constrs@[i]).comb@,
                                ) by {
                                    if i < pre2.len() {
                                        assert(csp.constrs@[i] == pre2[i]);
                                    } else {
                                        assert(csp.constrs@[i].comb@ =~= comb_snap);
                                    }
                                }
                            }
                        }
                        c = c + 1;
                    }
                }
                b = b + 1;
            }
            a = a + 1;
        }
        l = l + 1;
    }
    // Covering rows for every eligible hop pair of every level.
    let mut k: usize = 0;
    while k < placement.hops_by_level.len()
        invariant
            vars.wf(),
            k <= placement.hops_by_level@.len(),
            forall|i: int|
                0 <= i < csp.constrs@.len() ==> comb_bounded(
                    (#[trigger] csp.constrs@[i]).comb@,
                ),
            forall|ll: int, aa: int, bb: int|
                0 <= ll < placement.locs_by_level@.len() && 0 <= aa
                    < placement.locs_by_level@[ll]@.len() && 0 <= bb
                    < placement.locs_by_level@[ll]@.len() && aa != bb ==> #[trigger] antisym_ok(
                    csp.constrs@,
                    ll as usize,
                    aa as usize,
                    bb as usize,
                ),
            forall|ll: int, aa: int, bb: int, cc: int|
                0 <= ll < placement.locs_by_level@.len() && 0 <= aa
                    < placement.locs_by_level@[ll]@.len() && 0 <= bb
                    < placement.locs_by_level@[ll]@.len() && 0 <= cc
                    < placement.locs_by_level@[ll]@.len() && aa != bb && cc != aa && cc != bb
                    ==> #[trigger] trans_ok(
                    csp.constrs@,
                    ll as usize,
                    aa as usize,
                    bb as usize,
                    cc as usize,
                ),
            forall|ll: int, ii: int, jj: int|
                0 <= ll < k && 0 <= ii < placement.hops_by_level@[ll]@.len() && 0 <= jj
                    < placement.hops_by_level@[ll]@.len() && hops_eligible(
                    placement.hops_by_level@[ll]@[ii],
                    placement.hops_by_level@[ll]@[jj],
                ) ==> #[trigger] covering_ok(
                    csp.constrs@,
                    ll as usize,
                    placement.hops_by_level@[ll]@[ii],
                    placement.hops_by_level@[ll]@[jj],
                ),
        decreases placement.hops_by_level@.len() - k,
    {
        let m = placement.hops_by_level[k].len();
        let mut i1: usize = 0;
        while i1 < m
            invariant
                vars.wf(),
                i1 <= m,
                m == placement.hops_by_level@[k as int]@.len(),
                k < placement.hops_by_level@.len(),
                k < usize::MAX,
                forall|i: int|
                    0 <= i < csp.constrs@.len() ==> comb_bounded(
                        (#[trigger] csp.constrs@[i]).comb@,
                    ),
                forall|ll: int, aa: int, bb: int|
                    0 <= ll < placement.locs_by_level@.len() && 0 <= aa
                        < placement.locs_by_level@[ll]@.len() && 0 <= bb
                        < placement.locs_by_level@[ll]@.len() && aa != bb
                        ==> #[trigger] antisym_ok(
                        csp.constrs@,
                        ll as usize,
                        aa as usize,
                        bb as usize,
                    ),
                forall|ll: int, aa: int, bb: int, cc: int|
                    0 <= ll < placement.locs_by_level@.len() && 0 <= aa
                        < placement.locs_by_level@[ll]@.len() && 0 <= bb
                        < placement.locs_by_level@[ll]@.len() && 0 <= cc
                        < placement.locs_by_level@[ll]@.len() && aa != bb && cc != aa && cc != bb
                        ==> #[trigger] trans_ok(
                        csp.constrs@,
                        ll as usize,
                        aa as usize,
                        bb as usize,
                        cc as usize,
                    ),
                forall|ll: int, ii: int, jj: int|
                    0 <= ll < k && 0 <= ii < placement.hops_by_level@[ll]@.len() && 0 <= jj
                        < placement.hops_by_level@[ll]@.len() && hops_eligible(
                        placement.hops_by_level@[ll]@[ii],
                        placement.hops_by_level@[ll]@[jj],
                    ) ==> #[trigger] covering_ok(
                        csp.constrs@,
                        ll as usize,
                        placement.hops_by_level@[ll]@[ii],
                        placement.hops_by_level@[ll]@[jj],
                    ),
                forall|ii: int, jj: int|
                    0 <= ii < i1 && 0 <= jj < m && hops_eligible(
                        placement.hops_by_level@[k as int]@[ii],
                        placement.hops_by_level@[k as int]@[jj],
                    ) ==> #[trigger] covering_ok(
                        csp.constrs@,
                        k,
                        placement.hops_by_level@[k as int]@[ii],
                        placement.hops_by_level@[k as int]@[jj],
                    ),
            decreases m - i1,
        {
            let mut i2: usize = 0;
            while i2 < m
                invariant
                    vars.wf(),
                    i2 <= m,
                    i1 < m,
                    m == placement.hops_by_level@[k as int]@.len(),
                    k < placement.hops_by_level@.len(),
                    k < usize::MAX,
                    forall|i: int|
                        0 <= i < csp.constrs@.len() ==> comb_bounded(
                            (#[trigger] csp.constrs@[i]).comb@,
                        ),
                    forall|ll: int, aa: int, bb: int|
                        0 <= ll < placement.locs_by_level@.len() && 0 <= aa
                            < placement.locs_by_level@[ll]@.len() && 0 <= bb
                            < placement.locs_by_level@[ll]@.len() && aa != bb
                            ==> #[trigger] antisym_ok(
                            csp.constrs@,
                            ll as usize,
                            aa as usize,
                            bb as usize,
                        ),
                    forall|ll: int, aa: int, bb: int, cc: int|
                        0 <= ll < placement.locs_by_level@.len() && 0 <= aa
                            < placement.locs_by_level@[ll]@.len() && 0 <= bb
                            < placement.locs_by_level@[ll]@.len() && 0 <= cc
                            < placement.locs_by_level@[ll]@.len() && aa != bb && cc != aa && cc != bb
                            ==> #[trigger] trans_ok(
                            csp.constrs@,
                            ll as usize,
                            aa as usize,
                            bb as usize,
                            cc as usize,
                        ),
                    forall|ll: int, ii: int, jj: int|
                        0 <= ll < k && 0 <= ii < placement.hops_by_level@[ll]@.len() && 0 <= jj
                            < placement.hops_by_level@[ll]@.len() && hops_eligible(
                            placement.hops_by_level@[ll]@[ii],
                            placement.hops_by_level@[ll]@[jj],
                        ) ==> #[trigger] covering_ok(
                            csp.constrs@,
                            ll as usize,
                            placement.hops_by_level@[ll]@[ii],
                            placement.hops_by_level@[ll]@[jj],
                        ),
                    forall|ii: int, jj: int|
                        0 <= ii < i1 && 0 <= jj < m && hops_eligible(
                            placement.hops_by_level@[k as int]@[ii],
                            placement.hops_by_level@[k as int]@[jj],
                        ) ==> #[trigger] covering_ok(
                            csp.constrs@,
                            k,
                            placement.hops_by_level@[k as int]@[ii],
                            placement.hops_by_level@[k as int]@[jj],
                        ),
                    forall|jj: int|
                        0 <= jj < i2 && hops_eligible(
                            placement.hops_by_level@[k as int]@[i1 as int],
                            placement.hops_by_level@[k as int]@[jj],
                        ) ==> #[trigger] covering_ok(
                            csp.constrs@,
                            k,
                            placement.hops_by_level@[k as int]@[i1 as int],
                            placement.hops_by_level@[k as int]@[jj],
                        ),
                decreases m - i2,
            {
                let h1 = placement.hops_by_level[k][i1];
                let h2 = placement.hops_by_level[k][i2];
                let u1 = h1.mhr.0;
                let v1 = h1.nhr.0;
                let u2 = h2.mhr.0;
                let v2 = h2.nhr.0;
                if u1 != u2 && v1 != v2 {
                    let c = vars.get(AnySol::C(k, u1, v1, u2, v2));
                    let xu21 = vars.get(AnySol::X(k, u2, u1));
                    let xv12 = vars.get(AnySol::X(k + 1, v1, v2));
                    let xu12 = vars.get(AnySol::X(k, u1, u2));
                    let xv21 = vars.get(AnySol::X(k + 1, v2, v1));
                    let mut comb1: Vec<Monomial<AnySol>> = Vec::new();
                    comb1.push(c);
                    comb1.push(xu21);
                    comb1.push(xv12);
                    let mut comb2: Vec<Monomial<AnySol>> = Vec::new();
                    comb2.push(c);
                    comb2.push(xu12);
                    comb2.push(xv21);
                    let ghost pre = csp.constrs@;
                    let ghost c1_snap = comb1@;
                    let ghost c2_snap = comb2@;
                    csp.push(Constraint { lower: 1, comb: comb1, upper: None });
                    let ghost mid = csp.constrs@;
                    csp.push(Constraint { lower: 1, comb: comb2, upper: None });
                    proof {
                        lemma_antisym_frame(pre, csp.constrs@);
                        lemma_cover_frame(pre, csp.constrs@);
                        lemma_trans_frame(pre, csp.constrs@);
                        assert(csp.constrs@[pre.len() as int].comb@ =~= c1_snap);
                        assert(csp.constrs@.last().comb@ =~= c2_snap);
                        assert(cover_row_ok(
                            csp.constrs@,
                            AnySol::C(k, u1, v1, u2, v2),
                            AnySol::X(k, u2, u1),
                            AnySol::X((k + 1) as usize, v1, v2),
                        ));
                        assert(cover_row_ok(
                            csp.constrs@,
                            AnySol::C(k, u1, v1, u2, v2),
                            AnySol::X(k, u1, u2),
                            AnySol::X((k + 1) as usize, v2, v1),
                        ));
                        assert(covering_ok(csp.constrs@, k, h1, h2));
                        assert forall|i: int|
                            0 <= i < csp.constrs@.len() implies comb_bounded(
                            (#[trigger] csp.constrs@[i]).comb@,
                        ) by {
                            if i < pre.len() {
                                assert(csp.constrs@[i] == pre[i]);
                            } else if i == pre.len() {
                                assert(csp.constrs@[i].comb@ =~= c1_snap);
                            } else {
                                assert(csp.constrs@[i].comb@ =~= c2_snap);
                            }
                        }
                    }
                }
                i2 = i2 + 1;
            }
            i1 = i1 + 1;
        }
        k = k + 1;
    }
    // 0-1 bounds for every variable; the indicators form the objective.
    let all = vars.iter();
    let mut obj: Vec<Monomial<AnySol>> = Vec::new();
    let mut v: usize = 0;
    while v < all.len()
        invariant
            vars.wf(),
            v <= all@.len(),
            all@.len() == vars.sols@.len(),
            vars_enumerated(all@, vars.sols@, all@.len() as int),
            forall|x: int|
                0 <= x < obj@.len() ==> (#[trigger] obj@[x]).coeff == 1 && (obj@[x].var.index
                    as int) < v as int && vars.sols@[obj@[x].var.index as int]
                    == obj@[x].var.sol && (obj@[x].var.sol is C),
            forall|x1: int, x2: int|
                0 <= x1 < x2 < obj@.len() ==> (#[trigger] obj@[x1]).var.index != (
                #[trigger] obj@[x2]).var.index,
            forall|i: int|
                0 <= i < v && ((#[trigger] vars.sols@[i]) is C) ==> obj_has(obj@, vars.sols@[i]),
            forall|i: int|
                0 <= i < v ==> #[trigger] unit_bound_ok(csp.constrs@, vars.sols@[i]),
            forall|i: int|
                0 <= i < csp.constrs@.len() ==> comb_bounded(
                    (#[trigger] csp.constrs@[i]).comb@,
                ),
            forall|ll: int, aa: int, bb: int|
                0 <= ll < placement.locs_by_level@.len() && 0 <= aa
                    < placement.locs_by_level@[ll]@.len() && 0 <= bb
                    < placement.locs_by_level@[ll]@.len() && aa != bb ==> #[trigger] antisym_ok(
                    csp.constrs@,
                    ll as usize,
                    aa as usize,
                    bb as usize,
                ),
            forall|ll: int, aa: int, bb: int, cc: int|
                0 <= ll < placement.locs_by_level@.len() && 0 <= aa
                    < placement.locs_by_level@[ll]@.len() && 0 <= bb
                    < placement.locs_by_level@[ll]@.len() && 0 <= cc
                    < placement.locs_by_level@[ll]@.len() && aa != bb && cc != aa && cc != bb
                    ==> #[trigger] trans_ok(
                    csp.constrs@,
                    ll as usize,
                    aa as usize,
                    bb as usize,
                    cc as usize,
                ),
            forall|ll: int, ii: int, jj: int|
                0 <= ll < placement.hops_by_level@.len() && 0 <= ii
                    < placement.hops_by_level@[ll]@.len() && 0 <= jj
                    < placement.hops_by_level@[ll]@.len() && hops_eligible(
                    placement.hops_by_level@[ll]@[ii],
                    placement.hops_by_level@[ll]@[jj],
                ) ==> #[trigger] covering_ok(
                    csp.constrs@,
                    ll as usize,
                    placement.hops_by_level@[ll]@[ii],
                    placement.hops_by_level@[ll]@[jj],
                ),
        decreases all@.len() - v,
    {
        let var = all[v];
        let mono = Monomial::of(var);
        if matches!(var.sol, AnySol::C(_, _, _, _, _)) {
            let ghost obj_pre = obj@;
            obj.push(mono);
            proof {
                assert(var.index == v && var.sol == vars.sols@[v as int]);
                assert forall|x: int|
                    0 <= x < obj@.len() implies (#[trigger] obj@[x]).coeff == 1 && (
                obj@[x].var.index as int) < v as int + 1 && vars.sols@[obj@[x].var.index as int]
                    == obj@[x].var.sol && (obj@[x].var.sol is C) by {
                    if x < obj_pre.len() {
                        assert(obj@[x] == obj_pre[x]);
                    } else {
                        assert(obj@[x] == mono);
                    }
                }
                assert forall|x1: int, x2: int|
                    0 <= x1 < x2 < obj@.len() implies (#[trigger] obj@[x1]).var.index != (
                #[trigger] obj@[x2]).var.index by {
                    if x2 < obj_pre.len() {
                        assert(obj@[x1] == obj_pre[x1] && obj@[x2] == obj_pre[x2]);
                    } else {
                        assert(obj@[x2] == mono);
                        assert(obj@[x1] == obj_pre[x1]);
                    }
                }
                assert forall|i: int|
                    0 <= i < v as int + 1 && ((#[trigger] vars.sols@[i]) is C) implies obj_has(
                    obj@,
                    vars.sols@[i],
                ) by {
                    if i < v as int {
                        assert(obj_has(obj_pre, vars.sols@[i]));
                        let x = choose|x: int|
                            0 <= x < obj_pre.len() && (#[trigger] obj_pre[x]).var.sol
                                == vars.sols@[i];
                        assert(obj@[x] == obj_pre[x]);
                    } else {
                        assert(obj@[obj_pre.len() as int] == mono);
                    }
                }
            }
        } else {
            proof {
                assert(var.index == v && var.sol == vars.sols@[v as int]);
                assert forall|i: int|
                    0 <= i < v as int + 1 && ((#[trigger] vars.sols@[i]) is C) implies obj_has(
                    obj@,
                    vars.sols@[i],
                ) by {}
            }
        }
        let mut bc: Vec<Monomial<AnySol>> = Vec::new();
        bc.push(mono);
        let ghost pre = csp.constrs@;
        let ghost bc_snap = bc@;
        csp.push(Constraint { lower: 0, comb: bc, upper: Some(1) });
        proof {
            lemma_antisym_frame(pre, csp.constrs@);
            lemma_cover_frame(pre, csp.constrs@);
            lemma_trans_frame(pre, csp.constrs@);
            lemma_bound_frame(pre, csp.constrs@);
            assert(var.index == v && var.sol == vars.sols@[v as int]);
            assert(csp.constrs@[pre.len() as int].lower == 0 && csp.constrs@[pre.len()
                as int].upper == Some(1i64) && csp.constrs@[pre.len() as int].comb@ =~= bc_snap);
            assert(unit_bound_ok(csp.constrs@, vars.sols@[v as int]));
            assert forall|i: int|
                0 <= i < v as int + 1 implies #[trigger] unit_bound_ok(
                csp.constrs@,
                vars.sols@[i],
            ) by {}
            assert forall|i: int|
                0 <= i < csp.constrs@.len() implies comb_bounded(
                (#[trigger] csp.constrs@[i]).comb@,
            ) by {
                if i < pre.len() {
                    assert(csp.constrs@[i] == pre[i]);
                } else {
                    assert(csp.constrs@[i].comb@ =~= bc_snap);
                }
            }
        }
        v = v + 1;
    }
    ILP { vars, csp, obj }
}

/// Some entry of the keyed list carries index `v`.
pub open spec fn keyed_has_idx(sorted: Seq<(usize, usize)>, v: int) -> bool {
    exists|p: int| 0 <= p < sorted.len() && ((#[trigger] sorted[p]).1 as int) == v
}

/// The sequence holds each value below `n` exactly once.
pub open spec fn is_permutation(v: Seq<usize>, n: int) -> bool {
    &&& v.len() == n
    &&& forall|i: int| 0 <= i < n ==> ((#[trigger] v[i]) as int) < n
    &&& forall|i: int, j: int| 0 <= i < j < n ==> (#[trigger] v[i]) != (#[trigger] v[j])
}

/// Insert a `(key, index)` pair at its sorted position under the numeric
/// order on keys, index breaking ties.
pub fn sorted_insert_keyed(out: &mut Vec<(usize, usize)>, x: (usize, usize)) -> (pos: usize)
    requires
        forall|p1: int, p2: int|
            0 <= p1 < p2 < old(out)@.len() ==> keyed_le(
                #[trigger] old(out)@[p1],
                #[trigger] old(out)@[p2],
            ),
    ensures
        final(out)@.len() == old(out)@.len() + 1,
        pos <= old(out)@.len(),
        final(out)@ =~= old(out)@.insert(pos as int, x),
        forall|p1: int, p2: int|
            0 <= p1 < p2 < final(out)@.len() ==> keyed_le(
                #[trigger] final(out)@[p1],
                #[trigger] final(out)@[p2],
            ),
{
    let mut idx: usize = 0;
    let mut stop = false;
    while idx < out.len() && !stop
        invariant
            forall|p1: int, p2: int|
                0 <= p1 < p2 < out@.len() ==> keyed_le(#[trigger] out@[p1], #[trigger] out@[p2]),
            *out == *old(out),
            idx <= out@.len(),
            forall|p: int| 0 <= p < idx ==> keyed_le(#[trigger] out@[p], x),
            stop ==> idx < out@.len() && keyed_lt(x, out@[idx as int]),
        decreases out@.len() - idx + (if stop {
            0int
        } else {
            1int
        }),
    {
        let q = out[idx];
        if x.0 < q.0 || (x.0 == q.0 && x.1 < q.1) {
            stop = true;
        } else {
            idx = idx + 1;
        }
    }
    let ghost pre = out@;
    let ghost ii = idx as int;
    out.insert(idx, x);
    proof {
        assert(out@ =~= pre.insert(ii, x));
        assert forall|p1: int, p2: int|
            0 <= p1 < p2 < out@.len() implies keyed_le(#[trigger] out@[p1], #[trigger] out@[p2]) by {
            let o1: (usize, usize) = if p1 < ii {
                pre[p1]
            } else if p1 == ii {
                x
            } else {
                pre[p1 - 1]
            };
            let o2: (usize, usize) = if p2 < ii {
                pre[p2]
            } else if p2 == ii {
                x
            } else {
                pre[p2 - 1]
            };
            assert(out@[p1] == o1);
            assert(out@[p2] == o2);
            if p1 < ii && p2 == ii {
            } else if p1 == ii && p2 > ii {
                assert(stop);
            } else if p1 < ii && p2 > ii {
            }
        }
    }
    idx
}

/// Weak order on `(key, index)` pairs.
pub open spec fn keyed_le(a: (usize, usize), b: (usize, usize)) -> bool {
    a.0 < b.0 || (a.0 == b.0 && a.1 <= b.1)
}

/// Strict order on `(key, index)` pairs.
pub open spec fn keyed_lt(a: (usize, usize), b: (usize, usize)) -> bool {
    a.0 < b.0 || (a.0 == b.0 && a.1 < b.1)
}


/// The solved position of `(rank, position)`, or zero when out of range.
pub fn shr_at_exec(sol: &Vec<Vec<usize>>, r: usize, o: usize) -> (res: usize)
    ensures
        res as int == shr_at(sol@, r as int, o as int),
{
    if r < sol.len() {
        let row = &sol[r];
        if o < row.len() {
            return row[o];
        }
    }
    0
}

/// Count the crossings the solved positions exhibit, over every level and
/// unordered eligible hop pair; fails only if the count cannot be held in
/// a machine word.
pub fn crossing_number_of(placement: &Placement, sol: &Vec<Vec<usize>>) -> (r: Result<
    usize,
    Error,
>)
    ensures
        hops_pair_budget(placement.hops_by_level@) <= usize::MAX ==> r is Ok,
        match r {
            Ok(c) => c as int == crossing_count(sol@, placement.hops_by_level@),
            Err(e) => e is LayoutError,
        },
{
    let sol_len = sol.len();
    proof {
        assert(sol@.len() <= usize::MAX);
    }
    let mut count: usize = 0;
    let mut l: usize = 0;
    while l < placement.hops_by_level.len()
        invariant
            sol@.len() <= usize::MAX,
            l <= placement.hops_by_level@.len(),
            count as int == count_levels(sol@, placement.hops_by_level@, l as int),
        decreases placement.hops_by_level@.len() - l,
    {
        let hops = &placement.hops_by_level[l];
        let m = hops.len();
        let mut i: usize = 0;
        while i < m
            invariant
                sol@.len() <= usize::MAX,
                l < placement.hops_by_level@.len(),
                hops@ == placement.hops_by_level@[l as int]@,
                m == hops@.len(),
                i <= m,
                count as int == count_levels(sol@, placement.hops_by_level@, l as int)
                    + count_upto(sol@, hops@, i as int),
            decreases m - i,
        {
            let mut j: usize = i + 1;
            proof {
                assert(count_row(sol@, hops@, i as int, i + 1) == 0);
            }
            while j < m
                invariant
                    sol@.len() <= usize::MAX,
                    l < placement.hops_by_level@.len(),
                    hops@ == placement.hops_by_level@[l as int]@,
                    m == hops@.len(),
                    i < m,
                    i + 1 <= j <= m,
                    count as int == count_levels(sol@, placement.hops_by_level@, l as int)
                        + count_upto(sol@, hops@, i as int) + count_row(
                        sol@,
                        hops@,
                        i as int,
                        j as int,
                    ),
                decreases m - j,
            {
                let h1 = hops[i];
                let h2 = hops[j];
                let mut crossed = false;
                if h1.mhr.0 != h2.mhr.0 && h1.nhr.0 != h2.nhr.0 {
                    let lv = h1.lvl.0;
                    let u1 = shr_at_exec(sol, lv, h1.mhr.0);
                    let u2 = shr_at_exec(sol, lv, h2.mhr.0);
                    let lv1 = if lv < usize::MAX {
                        lv + 1
                    } else {
                        lv
                    };
                    let v1 = if lv < usize::MAX {
                        shr_at_exec(sol, lv1, h1.nhr.0)
                    } else {
                        0
                    };
                    let v2 = if lv < usize::MAX {
                        shr_at_exec(sol, lv1, h2.nhr.0)
                    } else {
                        0
                    };
                    proof {
                        if lv == usize::MAX {
                            assert(shr_at(sol@, lv as int + 1, h1.nhr.0 as int) == 0 || true);
                        }
                    }
                    if lv < usize::MAX {
                        crossed = (u1 < u2 && v2 < v1) || (u2 < u1 && v1 < v2);
                        proof {
                            assert(crossed == hops_crossed(sol@, h1, h2));
                        }
                    } else {
                        proof {
                            assert(sol@.len() <= usize::MAX);
                            assert(shr_at(sol@, (lv as int) + 1, h1.nhr.0 as int) == 0);
                            assert(shr_at(sol@, (lv as int) + 1, h2.nhr.0 as int) == 0);
                            assert(!hops_crossed(sol@, h1, h2) || hops_crossed(sol@, h1, h2));
                        }
                        let uu1 = shr_at_exec(sol, lv, h1.mhr.0);
                        let uu2 = shr_at_exec(sol, lv, h2.mhr.0);
                        crossed = false;
                        proof {
                            assert(hops_crossed(sol@, h1, h2) == ((shr_at(
                                sol@,
                                lv as int,
                                h1.mhr.0 as int,
                            ) < shr_at(sol@, lv as int, h2.mhr.0 as int) && 0 < 0) || (shr_at(
                                sol@,
                                lv as int,
                                h2.mhr.0 as int,
                            ) < shr_at(sol@, lv as int, h1.mhr.0 as int) && 0 < 0)));
                            assert(!hops_crossed(sol@, h1, h2));
                        }
                    }
                }
                proof {
                    assert((if crossed && hops_eligible(h1, h2) {
                        1int
                    } else {
                        0int
                    }) == cross_ind(sol@, h1, h2));
                }
                if crossed {
                    if count == usize::MAX {
                        proof {
                            let hbl = placement.hops_by_level@;
                            let ll = l as int;
                            let ii = i as int;
                            let jj = j as int;
                            assert(cross_ind(sol@, hops@[ii], hops@[jj]) == 1);
                            assert(count_row(sol@, hops@, ii, jj + 1) == count_row(
                                sol@,
                                hops@,
                                ii,
                                jj,
                            ) + 1);
                            lemma_count_row_mono(sol@, hops@, ii, jj + 1, m as int);
                            assert(count_upto(sol@, hops@, ii + 1) == count_upto(sol@, hops@, ii)
                                + count_row(sol@, hops@, ii, m as int));
                            lemma_count_upto_mono(sol@, hops@, ii + 1, m as int);
                            assert(count_levels(sol@, hbl, ll + 1) == count_levels(sol@, hbl, ll)
                                + count_level(sol@, hbl[ll]@));
                            lemma_count_levels_mono(sol@, hbl, ll + 1, hbl.len() as int);
                            lemma_count_levels_le_budget(sol@, hbl, hbl.len() as int);
                            assert(usize::MAX + 1 <= hops_pair_budget(hbl));
                        }
                        return Err(
                            Error::LayoutError {
                                source: LayoutError::OsqpError {
                                    error: "crossing count overflow".to_owned(),
                                },
                            },
                        );
                    }
                    count = count + 1;
                }
                j = j + 1;
            }
            i = i + 1;
        }
        l = l + 1;
    }
    Ok(count)
}

/// Recover the per-rank permutations from an integral point: a position's
/// key is how many positions of its rank stand left of it, and sorting
/// by key yields the solved order.
pub fn extract_solved_locs(placement: &Placement, vars: &Vars<AnySol>, xs: &Vec<i64>) -> (r: Vec<
    Vec<usize>,
>)
    requires
        vars.wf(),
    ensures
        r@.len() == placement.locs_by_level@.len(),
        forall|rk: int|
            0 <= rk < r@.len() ==> is_permutation(
                (#[trigger] r@[rk])@,
                placement.locs_by_level@[rk]@.len() as int,
            ),
        forall|rk: int, o1: int, o2: int|
            #![trigger r@[rk]@[o1], r@[rk]@[o2]]
            0 <= rk < r@.len() && 0 <= o1 < r@[rk]@.len() && 0 <= o2 < r@[rk]@.len() && o1 != o2
                ==> (((r@[rk]@[o1]) as int) < ((r@[rk]@[o2]) as int) <==> (xkey(
                *vars,
                xs@,
                rk as usize,
                o1 as usize,
                r@[rk]@.len() as int,
            ) < xkey(*vars, xs@, rk as usize, o2 as usize, r@[rk]@.len() as int) || (xkey(
                *vars,
                xs@,
                rk as usize,
                o1 as usize,
                r@[rk]@.len() as int,
            ) == xkey(*vars, xs@, rk as usize, o2 as usize, r@[rk]@.len() as int) && o1 < o2))),
{
    let mut out: Vec<Vec<usize>> = Vec::new();
    let mut rk: usize = 0;
    while rk < placement.locs_by_level.len()
        invariant
            vars.wf(),
            rk <= placement.locs_by_level@.len(),
            out@.len() == rk,
            forall|x: int|
                0 <= x < rk ==> is_permutation(
                    (#[trigger] out@[x])@,
                    placement.locs_by_level@[x]@.len() as int,
                ),
            forall|x: int, o1: int, o2: int|
                #![trigger out@[x]@[o1], out@[x]@[o2]]
                0 <= x < rk && 0 <= o1 < out@[x]@.len() && 0 <= o2 < out@[x]@.len() && o1 != o2
                    ==> (((out@[x]@[o1]) as int) < ((out@[x]@[o2]) as int) <==> (xkey(
                    *vars,
                    xs@,
                    x as usize,
                    o1 as usize,
                    out@[x]@.len() as int,
                ) < xkey(*vars, xs@, x as usize, o2 as usize, out@[x]@.len() as int) || (xkey(
                    *vars,
                    xs@,
                    x as usize,
                    o1 as usize,
                    out@[x]@.len() as int,
                ) == xkey(*vars, xs@, x as usize, o2 as usize, out@[x]@.len() as int) && o1
                    < o2))),
        decreases placement.locs_by_level@.len() - rk,
    {
        let n = placement.locs_by_level[rk].len();
        // Row-sum keys.
        let mut sorted: Vec<(usize, usize)> = Vec::new();
        let mut a: usize = 0;
        while a < n
            invariant
                vars.wf(),
                a <= n,
                sorted@.len() == a,
                forall|p1: int, p2: int|
                    0 <= p1 < p2 < sorted@.len() ==> keyed_le(
                        #[trigger] sorted@[p1],
                        #[trigger] sorted@[p2],
                    ),
                forall|p: int|
                    0 <= p < sorted@.len() ==> ((#[trigger] sorted@[p]).1 as int) < a,
                forall|p1: int, p2: int|
                    0 <= p1 < p2 < sorted@.len() ==> (#[trigger] sorted@[p1]).1 != (
                    #[trigger] sorted@[p2]).1,
                forall|v: int| 0 <= v < a ==> #[trigger] keyed_has_idx(sorted@, v),
                forall|p: int|
                    0 <= p < sorted@.len() ==> ((#[trigger] sorted@[p]).0 as int) == xkey(
                        *vars,
                        xs@,
                        rk,
                        sorted@[p].1,
                        n as int,
                    ),
            decreases n - a,
        {
            let mut key: usize = 0;
            let mut b: usize = 0;
            while b < n
                invariant
                    vars.wf(),
                    b <= n,
                    key <= b,
                    key as int == xkey_upto(*vars, xs@, rk, a, b as int),
                decreases n - b,
            {
                if b != a {
                    let xv = sol_value(vars, xs, AnySol::X(rk, b, a));
                    if xv == 1 {
                        key = key + 1;
                    }
                }
                b = b + 1;
            }
            let ghost pre = sorted@;
            let pos = sorted_insert_keyed(&mut sorted, (key, a));
            proof {
                let pi = pos as int;
                assert forall|p: int|
                    0 <= p < sorted@.len() implies ((#[trigger] sorted@[p]).1 as int) < a + 1
                        && ((sorted@[p]).0 as int) == xkey(
                        *vars,
                        xs@,
                        rk,
                        sorted@[p].1,
                        n as int,
                    ) by {
                    if p < pi {
                        assert(sorted@[p] == pre[p]);
                    } else if p == pi {
                        assert(sorted@[p] == (key, a));
                    } else {
                        assert(sorted@[p] == pre[p - 1]);
                    }
                }
                assert forall|p1: int, p2: int|
                    0 <= p1 < p2 < sorted@.len() implies (#[trigger] sorted@[p1]).1 != (
                #[trigger] sorted@[p2]).1 by {
                    let o1: (usize, usize) = if p1 < pi {
                        pre[p1]
                    } else if p1 == pi {
                        (key, a)
                    } else {
                        pre[p1 - 1]
                    };
                    let o2: (usize, usize) = if p2 < pi {
                        pre[p2]
                    } else if p2 == pi {
                        (key, a)
                    } else {
                        pre[p2 - 1]
                    };
                    assert(sorted@[p1] == o1);
                    assert(sorted@[p2] == o2);
                }
                assert forall|v: int| 0 <= v < a + 1 implies #[trigger] keyed_has_idx(
                    sorted@,
                    v,
                ) by {
                    if v < a {
                        assert(keyed_has_idx(pre, v));
                        let p = choose|p: int|
                            0 <= p < pre.len() && ((#[trigger] pre[p]).1 as int) == v;
                        if p < pi {
                            assert(sorted@[p] == pre[p]);
                        } else {
                            assert(sorted@[p + 1] == pre[p]);
                        }
                    } else {
                        assert(sorted@[pi] == (key, a));
                    }
                }
            }
            a = a + 1;
        }
        // Scatter: the solved position of a location is its sorted index.
        let mut shr: Vec<usize> = Vec::new();
        let mut z: usize = 0;
        while z < n
            invariant
                z <= n,
                shr@.len() == z,
            decreases n - z,
        {
            shr.push(0);
            z = z + 1;
        }
        let ghost sorted_snap = sorted@;
        let mut p: usize = 0;
        while p < n
            invariant
                sorted@ == sorted_snap,
                forall|v: int| 0 <= v < n ==> #[trigger] keyed_has_idx(sorted@, v),
                sorted@.len() == n,
                shr@.len() == n,
                p <= n,
                forall|q: int|
                    0 <= q < sorted@.len() ==> ((#[trigger] sorted@[q]).1 as int) < n,
                forall|q1: int, q2: int|
                    0 <= q1 < q2 < sorted@.len() ==> (#[trigger] sorted@[q1]).1 != (
                    #[trigger] sorted@[q2]).1,
                forall|q: int|
                    0 <= q < p ==> shr@[(#[trigger] sorted@[q]).1 as int] == q,
            decreases n - p,
        {
            let tgt = sorted[p].1;
            let ghost shr_pre = shr@;
            shr.set(tgt, p);
            proof {
                assert forall|q: int|
                    0 <= q < p + 1 implies shr@[(#[trigger] sorted@[q]).1 as int] == q by {
                    if q < p {
                        assert(sorted@[q].1 != sorted@[p as int].1);
                        assert(shr@[sorted@[q].1 as int] == shr_pre[sorted@[q].1 as int]);
                    }
                }
            }
            p = p + 1;
        }
        let ghost nn = n as int;
        proof {
            assert forall|o1: int, o2: int|
                0 <= o1 < o2 < nn implies (#[trigger] shr@[o1]) != (#[trigger] shr@[o2]) by {
                assert(keyed_has_idx(sorted@, o1));
                assert(keyed_has_idx(sorted@, o2));
                let q1 = choose|q: int|
                    0 <= q < sorted@.len() && ((#[trigger] sorted@[q]).1 as int) == o1;
                let q2 = choose|q: int|
                    0 <= q < sorted@.len() && ((#[trigger] sorted@[q]).1 as int) == o2;
                assert(shr@[o1] == q1);
                assert(shr@[o2] == q2);
                if q1 == q2 {
                    assert(o1 == o2);
                }
            }
            assert forall|o: int| 0 <= o < nn implies ((#[trigger] shr@[o]) as int) < nn by {
                assert(keyed_has_idx(sorted@, o));
                let q = choose|q: int|
                    0 <= q < sorted@.len() && ((#[trigger] sorted@[q]).1 as int) == o;
                assert(shr@[o] == q);
            }
            assert(is_permutation(shr@, placement.locs_by_level@[rk as int]@.len() as int));
            assert forall|o1: int, o2: int|
                0 <= o1 < nn && 0 <= o2 < nn && o1 != o2 implies (((shr@[o1]) as int) < ((
            shr@[o2]) as int) <==> (xkey(*vars, xs@, rk, o1 as usize, nn) < xkey(
                *vars,
                xs@,
                rk,
                o2 as usize,
                nn,
            ) || (xkey(*vars, xs@, rk, o1 as usize, nn) == xkey(*vars, xs@, rk, o2 as usize, nn)
                && o1 < o2))) by {
                assert(keyed_has_idx(sorted@, o1));
                assert(keyed_has_idx(sorted@, o2));
                let q1 = choose|q: int|
                    0 <= q < sorted@.len() && ((#[trigger] sorted@[q]).1 as int) == o1;
                let q2 = choose|q: int|
                    0 <= q < sorted@.len() && ((#[trigger] sorted@[q]).1 as int) == o2;
                assert(shr@[o1] == q1);
                assert(shr@[o2] == q2);
                assert(((sorted@[q1]).0 as int) == xkey(*vars, xs@, rk, o1 as usize, nn));
                assert(((sorted@[q2]).0 as int) == xkey(*vars, xs@, rk, o2 as usize, nn));
                if q1 == q2 {
                    assert(o1 == o2);
                }
                if q1 < q2 {
                    assert(keyed_le(sorted@[q1], sorted@[q2]));
                } else if q2 < q1 {
                    assert(keyed_le(sorted@[q2], sorted@[q1]));
                }
            }
        }
        out.push(shr);
        rk = rk + 1;
    }
    out
}

/// Whether the crossing program actually needs a numeric solve: some
/// level holds two or more hops.
pub fn crossing_needs_solver(placement: &Placement) -> (r: bool)
    ensures
        r == exists|l: int|
            0 <= l < placement.hops_by_level@.len() && (
            #[trigger] placement.hops_by_level@[l]@).len() > 1,
{
    let mut l: usize = 0;
    while l < placement.hops_by_level.len()
        invariant
            l <= placement.hops_by_level@.len(),
            forall|x: int|
                0 <= x < l ==> (#[trigger] placement.hops_by_level@[x]@).len() <= 1,
        decreases placement.hops_by_level@.len() - l,
    {
        if placement.hops_by_level[l].len() > 1 {
            return true;
        }
        l = l + 1;
    }
    false
}

/// Whether any hop exists at all.
pub fn has_any_hop(placement: &Placement) -> (r: bool)
    ensures
        r == exists|l: int|
            0 <= l < placement.hops_by_level@.len() && (
            #[trigger] placement.hops_by_level@[l]@).len() > 0,
{
    let mut l: usize = 0;
    while l < placement.hops_by_level.len()
        invariant
            l <= placement.hops_by_level@.len(),
            forall|x: int|
                0 <= x < l ==> (#[trigger] placement.hops_by_level@[x]@).len() == 0,
        decreases placement.hops_by_level@.len() - l,
    {
        if placement.hops_by_level[l].len() > 0 {
            return true;
        }
        l = l + 1;
    }
    false
}

/// The obtained crossing number and the map from original to solved
/// positions.
///
/// With no hops at all the answer is zero crossings and an empty map;
/// with at most one hop per level it is zero crossings and the identity
/// permutation of every rank; otherwise the integral point `xs` of the
/// crossing program, read through the variable registry `vars` it was
/// built with, is decoded into per-rank permutations: each object takes
/// the rank its row-sum key earns under the `(key, object)` order. The
/// reported number always equals the crossing count the returned
/// positions exhibit, and every returned rank is a permutation of its
/// positions.
pub fn minimize_edge_crossing(placement: &Placement, vars: &Vars<AnySol>, xs: &Vec<i64>) -> (r: Result<
    (usize, Vec<Vec<usize>>),
    Error,
>)
    requires
        vars.wf(),
    ensures
        hops_pair_budget(placement.hops_by_level@) <= usize::MAX ==> r is Ok,
        (exists|l: int|
            0 <= l < placement.hops_by_level@.len() && (
            #[trigger] placement.hops_by_level@[l]@).len() > 1) ==> (match r {
            Ok((c, sol)) => forall|rk: int, o1: int, o2: int|
                #![trigger sol@[rk]@[o1], sol@[rk]@[o2]]
                0 <= rk < sol@.len() && 0 <= o1 < sol@[rk]@.len() && 0 <= o2 < sol@[rk]@.len()
                    && o1 != o2 ==> (((sol@[rk]@[o1]) as int) < ((sol@[rk]@[o2]) as int) <==> (
                xkey(*vars, xs@, rk as usize, o1 as usize, sol@[rk]@.len() as int) < xkey(
                    *vars,
                    xs@,
                    rk as usize,
                    o2 as usize,
                    sol@[rk]@.len() as int,
                ) || (xkey(*vars, xs@, rk as usize, o1 as usize, sol@[rk]@.len() as int) == xkey(
                    *vars,
                    xs@,
                    rk as usize,
                    o2 as usize,
                    sol@[rk]@.len() as int,
                ) && o1 < o2))),
            Err(_) => true,
        }),
        (forall|l: int|
            0 <= l < placement.hops_by_level@.len() ==> (
            #[trigger] placement.hops_by_level@[l]@).len() == 0) ==> (r matches Ok((c, sol)) && c
            == 0 && sol@.len() == 0),
        ((exists|l: int|
            0 <= l < placement.hops_by_level@.len() && (
            #[trigger] placement.hops_by_level@[l]@).len() > 0) && (forall|l: int|
            0 <= l < placement.hops_by_level@.len() ==> (
            #[trigger] placement.hops_by_level@[l]@).len() <= 1)) ==> (r matches Ok((c, sol)) && c
            == 0 && sol@.len() == placement.locs_by_level@.len() && (forall|rk: int, i: int|
            0 <= rk < sol@.len() && 0 <= i < sol@[rk]@.len() ==> (#[trigger] sol@[rk]@[i]) == i)),
        match r {
            Ok((c, sol)) => {
                &&& c as int == crossing_count(sol@, placement.hops_by_level@)
                &&& (exists|l: int|
                    0 <= l < placement.hops_by_level@.len() && (
                    #[trigger] placement.hops_by_level@[l]@).len() > 0) ==> sol@.len()
                    == placement.locs_by_level@.len() && (forall|rk: int|
                    0 <= rk < sol@.len() ==> is_permutation(
                        (#[trigger] sol@[rk])@,
                        placement.locs_by_level@[rk]@.len() as int,
                    ))
            },
            Err(_) => true,
        },
{
    if !has_any_hop(placement) {
        let sol: Vec<Vec<usize>> = Vec::new();
        proof {
            lemma_count_levels_trivial(
                sol@,
                placement.hops_by_level@,
                placement.hops_by_level@.len() as int,
            );
        }
        return Ok((0, sol));
    }
    if !crossing_needs_solver(placement) {
        // Identity permutations.
        let mut sol: Vec<Vec<usize>> = Vec::new();
        let mut rk: usize = 0;
        while rk < placement.locs_by_level.len()
            invariant
                rk <= placement.locs_by_level@.len(),
                sol@.len() == rk,
                forall|x: int|
                    0 <= x < rk ==> is_permutation(
                        (#[trigger] sol@[x])@,
                        placement.locs_by_level@[x]@.len() as int,
                    ),
                forall|x: int, i: int|
                    0 <= x < rk && 0 <= i < sol@[x]@.len() ==> (#[trigger] sol@[x]@[i]) == i,
            decreases placement.locs_by_level@.len() - rk,
        {
            let n = placement.locs_by_level[rk].len();
            let mut ident: Vec<usize> = Vec::new();
            let mut i: usize = 0;
            while i < n
                invariant
                    i <= n,
                    ident@.len() == i,
                    forall|x: int| 0 <= x < i ==> (#[trigger] ident@[x]) == x,
                decreases n - i,
            {
                ident.push(i);
                i = i + 1;
            }
            sol.push(ident);
            rk = rk + 1;
        }
        proof {
            lemma_count_levels_trivial(
                sol@,
                placement.hops_by_level@,
                placement.hops_by_level@.len() as int,
            );
        }
        return Ok((0, sol));
    }
    let sol = extract_solved_locs(placement, vars, xs);
    let c = match crossing_number_of(placement, &sol) {
        Ok(c) => c,
        Err(e) => {
            return Err(e);
        },
    };
    Ok((c, sol))
}

} // verus!
