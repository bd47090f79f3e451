//! Linear-constraint algebra.
//!
//! A [`Vars`] registry assigns each abstract solution variable a stable
//! dense column index on first use. A [`Constraints`] list holds rows
//! `L <= sum of c_i * x_i <= U`; an upper bound of `None` means unbounded
//! above. All coefficients and bounds are integers; the numeric solver that
//! eventually consumes a problem receives them through the column-compressed
//! form emitted by [`as_csc_matrix`] and [`as_diag_csc_matrix`].

use vstd::prelude::*;

verus! {

/// Weight of the quadratic symmetry penalty contributed by [`Constraints::sym`].
pub const SYMMETRY_COST: i64 = 100;

/// A maker of fresh solution-variable identifiers, used for the auxiliary
/// variables of quadratic symmetry penalties.
pub trait Fresh: Sized {
    /// Which identifier `fresh` builds from an index.
    spec fn fresh_spec(index: usize) -> Self;

    fn fresh(index: usize) -> (r: Self)
        ensures
            r == Self::fresh_spec(index);
}

/// An abstract solution-variable identifier.
///
/// `eq_sol` must decide structural equality, so that the registry can find
/// a previously issued variable again.
pub trait Sol: Sized + Copy + Fresh {
    fn eq_sol(&self, other: &Self) -> (r: bool)
        ensures
            r == (*self == *other);
}

/// A solution variable: its dense column index and its identifier.
#[derive(Clone, Copy, Debug, PartialEq, Eq)]
pub struct Var<S> {
    pub index: usize,
    pub sol: S,
}

/// A coefficient attached to a variable.
#[derive(Clone, Copy, Debug, PartialEq, Eq)]
pub struct Monomial<S> {
    pub var: Var<S>,
    pub coeff: i64,
}

impl<S: Copy> Monomial<S> {
    /// The monomial `1 * var`.
    pub fn of(var: Var<S>) -> (r: Self)
        ensures
            r.var == var,
            r.coeff == 1,
    {
        Monomial { var, coeff: 1 }
    }

    /// The same monomial with its coefficient negated.
    pub fn negate(self) -> (r: Self)
        requires
            self.coeff != i64::MIN,
        ensures
            r.var == self.var,
            r.coeff == -self.coeff,
    {
        Monomial { var: self.var, coeff: -self.coeff }
    }
}

/// The dense registry of solution variables.
#[derive(Clone, Debug)]
pub struct Vars<S> {
    pub sols: Vec<S>,
}

impl<S> Vars<S> {
    /// No identifier is registered twice.
    pub open spec fn wf(self) -> bool {
        forall|i: int, j: int|
            0 <= i < j < self.sols@.len() ==> self.sols@[i] != self.sols@[j]
    }

    /// Whether `s` has been issued an index.
    pub open spec fn has(self, s: S) -> bool {
        exists|i: int| 0 <= i < self.sols@.len() && self.sols@[i] == s
    }

    /// The index issued to `s`; meaningful when `has(s)`.
    pub open spec fn pos_of(self, s: S) -> int {
        choose|i: int| 0 <= i < self.sols@.len() && self.sols@[i] == s
    }

    /// The registry grew from `other` without renumbering anything.
    pub open spec fn extends(self, other: Vars<S>) -> bool {
        self.sols@.len() >= other.sols@.len() && (forall|i: int|
            0 <= i < other.sols@.len() ==> self.sols@[i] == other.sols@[i])
    }

    /// Extension keeps membership and positions of registered identifiers.
    pub proof fn lemma_extends_stable(self, other: Vars<S>, s: S)
        requires
            self.wf(),
            self.extends(other),
            other.has(s),
        ensures
            self.has(s),
            self.pos_of(s) == other.pos_of(s),
    {
        let i = choose|i: int| 0 <= i < other.sols@.len() && other.sols@[i] == s;
        assert(self.sols@[i] == s);
        let p = self.pos_of(s);
        assert(self.sols@[p] == s);
        if p != i {
            assert(false);
        }
        let q = other.pos_of(s);
        assert(other.sols@[q] == s);
        assert(self.sols@[q] == s);
        if q != i {
            assert(false);
        }
    }

    /// `extends` is transitive.
    pub proof fn lemma_extends_trans(self, mid: Vars<S>, first: Vars<S>)
        requires
            self.extends(mid),
            mid.extends(first),
        ensures
            self.extends(first),
    {
    }
}

impl<S: Sol> Vars<S> {
    /// An empty registry.
    pub fn new() -> (r: Self)
        ensures
            r.sols@.len() == 0,
            r.wf(),
    {
        Vars { sols: Vec::new() }
    }

    /// How many variables have been issued.
    pub fn len(&self) -> (r: usize)
        ensures
            r == self.sols@.len(),
    {
        self.sols.len()
    }

    /// Whether no variable has been issued yet.
    pub fn is_empty(&self) -> (r: bool)
        ensures
            r == (self.sols@.len() == 0),
    {
        self.sols.len() == 0
    }

    /// The monomial `1 * x` for the variable of `index`, issuing the next
    /// free column index on first use.
    pub fn get(&mut self, index: S) -> (m: Monomial<S>)
        requires
            old(self).wf(),
        ensures
            final(self).wf(),
            final(self).extends(*old(self)),
            m.coeff == 1,
            m.var.sol == index,
            final(self).has(index),
            m.var.index == final(self).pos_of(index),
            m.var.index < final(self).sols@.len(),
            old(self).has(index) ==> *final(self) == *old(self),
            !old(self).has(index) ==> final(self).sols@ =~= old(self).sols@.push(index)
                && m.var.index == old(self).sols@.len(),
    {
        let n = self.sols.len();
        let mut i: usize = 0;
        while i < n
            invariant
                n == self.sols@.len(),
                i <= n,
                old(self).wf(),
                *self == *old(self),
                forall|j: int| 0 <= j < i ==> self.sols@[j] != index,
            decreases n - i,
        {
            if self.sols[i].eq_sol(&index) {
                proof {
                    assert(self.sols@[i as int] == index);
                    let p = self.pos_of(index);
                    assert(self.sols@[p] == index);
                    if p != i {
                        assert(false);
                    }
                }
                return Monomial { var: Var { index: i, sol: index }, coeff: 1 };
            }
            i = i + 1;
        }
        self.sols.push(index);
        proof {
            assert(self.sols@[n as int] == index);
            let p = self.pos_of(index);
            assert(self.sols@[p] == index);
            if p != n {
                assert(false);
            }
        }
        Monomial { var: Var { index: n, sol: index }, coeff: 1 }
    }

    /// Every issued variable, in column order.
    pub fn iter(&self) -> (r: Vec<Var<S>>)
        ensures
            r@.len() == self.sols@.len(),
            vars_enumerated(r@, self.sols@, r@.len() as int),
    {
        let mut out: Vec<Var<S>> = Vec::new();
        let mut i: usize = 0;
        while i < self.sols.len()
            invariant
                i <= self.sols@.len(),
                out@.len() == i,
                vars_enumerated(out@, self.sols@, i as int),
            decreases self.sols@.len() - i,
        {
            let w = Var { index: i, sol: self.sols[i] };
            let ghost pre = out@;
            out.push(w);
            proof {
                assert(out@ =~= pre.push(w));
                assert forall|j: int| 0 <= j < i + 1 implies (#[trigger] out@[j]).index == j
                    && out@[j].sol == self.sols@[j] by {
                    if j < i {
                        assert(pre[j].index == j && pre[j].sol == self.sols@[j]);
                        assert(out@[j] == pre[j]);
                    } else {
                        assert(out@[j] == w);
                    }
                }
            }
            i = i + 1;
        }
        out
    }
}

/// The first `n` entries of `out` pair each registered identifier with its
/// own position as column index.
pub open spec fn vars_enumerated<S>(out: Seq<Var<S>>, sols: Seq<S>, n: int) -> bool {
    forall|j: int|
        0 <= j < n ==> (#[trigger] out[j]).index == j && out[j].sol == sols[j]
}

/// One row `lower <= sum of comb <= upper`; `upper == None` means the row
/// is unbounded above.
#[derive(Clone, Debug)]
pub struct Constraint<S> {
    pub lower: i64,
    pub comb: Vec<Monomial<S>>,
    pub upper: Option<i64>,
}

/// A two-term row shape: `lo <= c0*s0 + c1*s1 <= up`.
pub open spec fn is_two_row<S>(
    r: Constraint<S>,
    lo: int,
    c0: int,
    s0: S,
    c1: int,
    s1: S,
    up: Option<i64>,
) -> bool {
    &&& r.lower == lo
    &&& r.upper == up
    &&& r.comb@.len() == 2
    &&& r.comb@[0].coeff == c0
    &&& r.comb@[0].var.sol == s0
    &&& r.comb@[1].coeff == c1
    &&& r.comb@[1].var.sol == s1
}

/// Every monomial of the row carries the column index that `vs` issued for
/// its identifier.
pub open spec fn row_wf<S>(r: Constraint<S>, vs: Vars<S>) -> bool {
    forall|k: int|
        0 <= k < r.comb@.len() ==> vs.has(#[trigger] r.comb@[k].var.sol) && r.comb@[k].var.index
            == vs.pos_of(r.comb@[k].var.sol) && r.comb@[k].var.index < vs.sols@.len()
}

/// Row well-formedness survives registry extension.
pub proof fn lemma_row_wf_extends<S>(r: Constraint<S>, vs: Vars<S>, bigger: Vars<S>)
    requires
        row_wf(r, vs),
        bigger.wf(),
        bigger.extends(vs),
    ensures
        row_wf(r, bigger),
{
    assert forall|k: int| 0 <= k < r.comb@.len() implies bigger.has(
        #[trigger] r.comb@[k].var.sol,
    ) && r.comb@[k].var.index == bigger.pos_of(r.comb@[k].var.sol) && r.comb@[k].var.index
        < bigger.sols@.len() by {
        bigger.lemma_extends_stable(vs, r.comb@[k].var.sol);
    }
}

/// The ordered list of constraint rows of a problem.
#[derive(Clone, Debug)]
pub struct Constraints<S> {
    pub constrs: Vec<Constraint<S>>,
}

impl<S> Constraints<S> {
    /// Every row is well formed with respect to `vs`.
    pub open spec fn wf(self, vs: Vars<S>) -> bool {
        forall|i: int| 0 <= i < self.constrs@.len() ==> row_wf(#[trigger] self.constrs@[i], vs)
    }

    /// Constraint well-formedness survives registry extension.
    pub proof fn lemma_wf_extends(self, vs: Vars<S>, bigger: Vars<S>)
        requires
            self.wf(vs),
            bigger.wf(),
            bigger.extends(vs),
        ensures
            self.wf(bigger),
    {
        assert forall|i: int| 0 <= i < self.constrs@.len() implies row_wf(
            #[trigger] self.constrs@[i],
            bigger,
        ) by {
            lemma_row_wf_extends(self.constrs@[i], vs, bigger);
        }
    }
}

impl<S: Sol> Constraints<S> {
    /// An empty list of rows.
    pub fn new() -> (r: Self)
        ensures
            r.constrs@.len() == 0,
    {
        Constraints { constrs: Vec::new() }
    }

    /// How many rows have been recorded.
    pub fn len(&self) -> (r: usize)
        ensures
            r == self.constrs@.len(),
    {
        self.constrs.len()
    }

    /// Whether no row has been recorded.
    pub fn is_empty(&self) -> (r: bool)
        ensures
            r == (self.constrs@.len() == 0),
    {
        self.constrs.len() == 0
    }

    /// Record a row as given.
    pub fn push(&mut self, value: Constraint<S>)
        ensures
            final(self).constrs@ =~= old(self).constrs@.push(value),
    {
        self.constrs.push(value);
    }

    /// The rows recorded so far.
    pub fn iter(&self) -> (r: &Vec<Constraint<S>>)
        ensures
            r@ =~= self.constrs@,
    {
        &self.constrs
    }

    /// Record `lhs <= rhs` as `0 <= rhs - lhs`; equal identifiers need no row.
    pub fn leq(&mut self, v: &mut Vars<S>, lhs: S, rhs: S)
        requires
            old(v).wf(),
        ensures
            final(v).wf(),
            final(v).extends(*old(v)),
            lhs == rhs ==> *final(self) == *old(self) && *final(v) == *old(v),
            lhs != rhs ==> final(self).constrs@.len() == old(self).constrs@.len() + 1 && (forall|
                i: int,
            |
                0 <= i < old(self).constrs@.len() ==> final(self).constrs@[i] == old(self).constrs@[i]) && is_two_row(
                final(self).constrs@.last(),
                0,
                -1,
                lhs,
                1,
                rhs,
                None,
            ) && row_wf(final(self).constrs@.last(), *final(v)),
    {
        if lhs.eq_sol(&rhs) {
            return ;
        }
        let ml = v.get(lhs).negate();
        let ghost v1 = *v;
        let mr = v.get(rhs);
        proof {
            (*v).lemma_extends_stable(v1, lhs);
        }
        let mut comb: Vec<Monomial<S>> = Vec::new();
        comb.push(ml);
        comb.push(mr);
        self.constrs.push(Constraint { lower: 0, comb, upper: None });
    }

    /// Record `lhs + c <= rhs` as `c <= rhs - lhs`.
    pub fn leqc(&mut self, v: &mut Vars<S>, lhs: S, rhs: S, c: i64)
        requires
            old(v).wf(),
        ensures
            final(v).wf(),
            final(v).extends(*old(v)),
            final(self).constrs@.len() == old(self).constrs@.len() + 1,
            forall|i: int|
                0 <= i < old(self).constrs@.len() ==> final(self).constrs@[i] == old(self).constrs@[i],
            is_two_row(final(self).constrs@.last(), c as int, -1, lhs, 1, rhs, None),
            row_wf(final(self).constrs@.last(), *final(v)),
    {
        let ml = v.get(lhs).negate();
        let ghost v1 = *v;
        let mr = v.get(rhs);
        proof {
            (*v).lemma_extends_stable(v1, lhs);
        }
        let mut comb: Vec<Monomial<S>> = Vec::new();
        comb.push(ml);
        comb.push(mr);
        self.constrs.push(Constraint { lower: c, comb, upper: None });
    }

    /// Record `lhs >= rhs` as `0 <= lhs - rhs`; equal identifiers need no row.
    pub fn geq(&mut self, v: &mut Vars<S>, lhs: S, rhs: S)
        requires
            old(v).wf(),
        ensures
            final(v).wf(),
            final(v).extends(*old(v)),
            lhs == rhs ==> *final(self) == *old(self) && *final(v) == *old(v),
            lhs != rhs ==> final(self).constrs@.len() == old(self).constrs@.len() + 1 && (forall|
                i: int,
            |
                0 <= i < old(self).constrs@.len() ==> final(self).constrs@[i] == old(self).constrs@[i]) && is_two_row(
                final(self).constrs@.last(),
                0,
                1,
                lhs,
                -1,
                rhs,
                None,
            ) && row_wf(final(self).constrs@.last(), *final(v)),
    {
        if lhs.eq_sol(&rhs) {
            return ;
        }
        let ml = v.get(lhs);
        let ghost v1 = *v;
        let mr = v.get(rhs).negate();
        proof {
            (*v).lemma_extends_stable(v1, lhs);
        }
        let mut comb: Vec<Monomial<S>> = Vec::new();
        comb.push(ml);
        comb.push(mr);
        self.constrs.push(Constraint { lower: 0, comb, upper: None });
    }

    /// Record `lhs >= rhs + c` as `c <= lhs - rhs`.
    pub fn geqc(&mut self, v: &mut Vars<S>, lhs: S, rhs: S, c: i64)
        requires
            old(v).wf(),
        ensures
            final(v).wf(),
            final(v).extends(*old(v)),
            final(self).constrs@.len() == old(self).constrs@.len() + 1,
            forall|i: int|
                0 <= i < old(self).constrs@.len() ==> final(self).constrs@[i] == old(self).constrs@[i],
            is_two_row(final(self).constrs@.last(), c as int, 1, lhs, -1, rhs, None),
            row_wf(final(self).constrs@.last(), *final(v)),
    {
        let ml = v.get(lhs);
        let ghost v1 = *v;
        let mr = v.get(rhs).negate();
        proof {
            (*v).lemma_extends_stable(v1, lhs);
        }
        let mut comb: Vec<Monomial<S>> = Vec::new();
        comb.push(ml);
        comb.push(mr);
        self.constrs.push(Constraint { lower: c, comb, upper: None });
    }

    /// Record the equality `sum of lc == 0`.
    pub fn eq(&mut self, lc: &Vec<Monomial<S>>)
        ensures
            final(self).constrs@.len() == old(self).constrs@.len() + 1,
            forall|i: int|
                0 <= i < old(self).constrs@.len() ==> final(self).constrs@[i] == old(self).constrs@[i],
            final(self).constrs@.last().lower == 0,
            final(self).constrs@.last().upper == Some(0i64),
            final(self).constrs@.last().comb@ =~= lc@,
    {
        let mut comb: Vec<Monomial<S>> = Vec::new();
        let mut i: usize = 0;
        while i < lc.len()
            invariant
                i <= lc@.len(),
                comb@ =~= lc@.take(i as int),
            decreases lc@.len() - i,
        {
            comb.push(lc[i]);
            proof {
                assert(lc@.take(i + 1 as int) =~= lc@.take(i as int).push(lc@[i as int]));
            }
            i = i + 1;
        }
        proof {
            assert(lc@.take(lc@.len() as int) =~= lc@);
        }
        self.constrs.push(Constraint { lower: 0, comb, upper: Some(0) });
    }

    /// Record the equality `sum of lc == c`.
    pub fn eqc(&mut self, lc: &Vec<Monomial<S>>, c: i64)
        ensures
            final(self).constrs@.len() == old(self).constrs@.len() + 1,
            forall|i: int|
                0 <= i < old(self).constrs@.len() ==> final(self).constrs@[i] == old(self).constrs@[i],
            final(self).constrs@.last().lower == c,
            final(self).constrs@.last().upper == Some(c),
            final(self).constrs@.last().comb@ =~= lc@,
    {
        let mut comb: Vec<Monomial<S>> = Vec::new();
        let mut i: usize = 0;
        while i < lc.len()
            invariant
                i <= lc@.len(),
                comb@ =~= lc@.take(i as int),
            decreases lc@.len() - i,
        {
            comb.push(lc[i]);
            proof {
                assert(lc@.take(i + 1 as int) =~= lc@.take(i as int).push(lc@[i as int]));
            }
            i = i + 1;
        }
        proof {
            assert(lc@.take(lc@.len() as int) =~= lc@);
        }
        self.constrs.push(Constraint { lower: c, comb, upper: Some(c) });
    }

    /// Introduce a fresh auxiliary variable `t`, add `100 * t` to the
    /// quadratic diagonal `pd`, and record `t - lhs + rhs == 0`, realizing
    /// the quadratic penalty `100 * (lhs - rhs)^2`.
    pub fn sym(&mut self, v: &mut Vars<S>, pd: &mut Vec<Monomial<S>>, lhs: S, rhs: S)
        requires
            old(v).wf(),
        ensures
            final(v).wf(),
            final(v).extends(*old(v)),
            final(self).constrs@.len() == old(self).constrs@.len() + 1,
            forall|i: int|
                0 <= i < old(self).constrs@.len() ==> final(self).constrs@[i] == old(self).constrs@[i],
            final(pd)@.len() == old(pd)@.len() + 1,
            forall|i: int| 0 <= i < old(pd)@.len() ==> final(pd)@[i] == old(pd)@[i],
            final(pd)@.last().coeff == SYMMETRY_COST,
            final(pd)@.last().var.sol == S::fresh_spec(old(v).sols@.len() as usize),
            final(self).constrs@.last().lower == 0,
            final(self).constrs@.last().upper == Some(0i64),
            final(self).constrs@.last().comb@.len() == 3,
            final(self).constrs@.last().comb@[0].var == final(pd)@.last().var,
            final(self).constrs@.last().comb@[0].coeff == 1,
            final(self).constrs@.last().comb@[1].coeff == -1,
            final(self).constrs@.last().comb@[1].var.sol == lhs,
            final(self).constrs@.last().comb@[2].coeff == 1,
            final(self).constrs@.last().comb@[2].var.sol == rhs,
            row_wf(final(self).constrs@.last(), *final(v)),
    {
        let fresh_len = v.len();
        let t = v.get(S::fresh(fresh_len));
        let ghost v1 = *v;
        let ml = v.get(lhs).negate();
        let ghost v2 = *v;
        let mr = v.get(rhs);
        proof {
            (*v).lemma_extends_trans(v2, v1);
            (*v).lemma_extends_stable(v1, t.var.sol);
            (*v).lemma_extends_stable(v2, lhs);
        }
        pd.push(Monomial { var: t.var, coeff: SYMMETRY_COST });
        let mut comb: Vec<Monomial<S>> = Vec::new();
        comb.push(t);
        comb.push(ml);
        comb.push(mr);
        self.constrs.push(Constraint { lower: 0, comb, upper: Some(0) });
    }
}


/// Column-compressed sparse form of an integer matrix, as the numeric
/// solver expects it: `indptr` has one entry per column plus one, and
/// column `j`'s nonzero entries sit at positions `indptr[j] .. indptr[j+1]`
/// of `indices` (row numbers, ascending) and `data` (coefficients).
#[derive(Clone, Debug)]
pub struct CscData {
    pub nrows: usize,
    pub ncols: usize,
    pub indptr: Vec<usize>,
    pub indices: Vec<usize>,
    pub data: Vec<i64>,
}

/// No two monomials of the row name the same column.
pub open spec fn row_no_dup<S>(c: Constraint<S>) -> bool {
    forall|k1: int, k2: int|
        0 <= k1 < k2 < c.comb@.len() ==> (#[trigger] c.comb@[k1]).var.index != (
        #[trigger] c.comb@[k2]).var.index
}

/// Every column named by the row lies below `n`.
pub open spec fn row_cols_lt<S>(c: Constraint<S>, n: int) -> bool {
    forall|k: int| 0 <= k < c.comb@.len() ==> (#[trigger] c.comb@[k]).var.index < n
}

/// Whether some monomial of the row names column `j`.
pub open spec fn row_has_col<S>(c: Constraint<S>, j: int) -> bool {
    exists|k: int| 0 <= k < c.comb@.len() && (#[trigger] c.comb@[k]).var.index == j
}

/// The matrix coefficient of the row in column `j`: the coefficient of the
/// monomial naming `j`, or zero when none does.
pub open spec fn row_col_coeff<S>(c: Constraint<S>, j: int) -> int {
    if row_has_col(c, j) {
        c.comb@[choose|k: int|
            0 <= k < c.comb@.len() && (#[trigger] c.comb@[k]).var.index == j].coeff as int
    } else {
        0
    }
}

/// The matrix coefficient of the row in column `j`.
pub fn coeff_at<S: Sol>(c: &Constraint<S>, j: usize) -> (r: i64)
    requires
        row_no_dup(*c),
    ensures
        r as int == row_col_coeff(*c, j as int),
{
    let mut k: usize = 0;
    while k < c.comb.len()
        invariant
            k <= c.comb@.len(),
            row_no_dup(*c),
            forall|kk: int| 0 <= kk < k ==> (#[trigger] c.comb@[kk]).var.index != j,
        decreases c.comb@.len() - k,
    {
        if c.comb[k].var.index == j {
            proof {
                assert(row_has_col(*c, j as int));
                let kk = choose|kk: int|
                    0 <= kk < c.comb@.len() && (#[trigger] c.comb@[kk]).var.index == j;
                if kk != k {
                    assert(false);
                }
            }
            return c.comb[k].coeff;
        }
        k = k + 1;
    }
    proof {
        if row_has_col(*c, j as int) {
            let kk = choose|kk: int|
                0 <= kk < c.comb@.len() && (#[trigger] c.comb@[kk]).var.index == j;
            assert(false);
        }
    }
    0
}

/// Column `j` of the compressed form lists exactly the rows whose
/// coefficient in column `j` is nonzero, in ascending row order, paired
/// with those coefficients.
pub open spec fn csc_col_ok<S>(
    rows: Seq<Constraint<S>>,
    indptr: Seq<usize>,
    indices: Seq<usize>,
    data: Seq<i64>,
    j: int,
) -> bool {
    &&& (forall|p: int|
        indptr[j] <= p < indptr[j + 1] ==> (#[trigger] indices[p]) < rows.len() && data[p]
            == row_col_coeff(rows[indices[p] as int], j) && data[p] != 0)
    &&& (forall|p: int, q: int|
        indptr[j] <= p < q < indptr[j + 1] ==> (#[trigger] indices[p]) < (#[trigger] indices[q]))
    &&& (forall|i: int|
        0 <= i < rows.len() && #[trigger] row_col_coeff(rows[i], j) != 0 ==> exists|p: int|
            indptr[j] <= p < indptr[j + 1] && indices[p] == i)
}

/// Emit the rows as a column-compressed matrix of `nrows` by `ncols`.
pub fn as_csc_matrix<S: Sol>(nrows: usize, ncols: usize, rows: &Vec<Constraint<S>>) -> (m:
    CscData)
    requires
        rows@.len() == nrows,
        ncols < usize::MAX,
        forall|i: int| 0 <= i < nrows ==> row_no_dup(#[trigger] rows@[i]),
        forall|i: int| 0 <= i < nrows ==> row_cols_lt(#[trigger] rows@[i], ncols as int),
    ensures
        m.nrows == nrows,
        m.ncols == ncols,
        m.indptr@.len() == ncols + 1,
        m.indices@.len() == m.data@.len(),
        m.indptr@[0] == 0,
        m.indptr@[ncols as int] == m.data@.len(),
        forall|j: int| 0 <= j < ncols ==> (#[trigger] m.indptr@[j]) <= m.indptr@[j + 1],
        forall|j: int| 0 <= j <= ncols ==> (#[trigger] m.indptr@[j]) <= m.data@.len(),
        forall|j: int|
            0 <= j < ncols ==> csc_col_ok(rows@, m.indptr@, m.indices@, m.data@, j),
{
    let mut indptr: Vec<usize> = Vec::new();
    let mut indices: Vec<usize> = Vec::new();
    let mut data: Vec<i64> = Vec::new();
    indptr.push(0);
    let mut j: usize = 0;
    while j < ncols
        invariant
            rows@.len() == nrows,
            ncols < usize::MAX,
            forall|i: int| 0 <= i < nrows ==> row_no_dup(#[trigger] rows@[i]),
            forall|i: int| 0 <= i < nrows ==> row_cols_lt(#[trigger] rows@[i], ncols as int),
            j <= ncols,
            indptr@.len() == j + 1,
            indptr@[0] == 0,
            indices@.len() == data@.len(),
            indptr@[j as int] == data@.len(),
            forall|jj: int| 0 <= jj < j ==> (#[trigger] indptr@[jj]) <= indptr@[jj + 1],
            forall|jj: int| 0 <= jj <= j ==> (#[trigger] indptr@[jj]) <= data@.len(),
            forall|jj: int| 0 <= jj < j ==> csc_col_ok(rows@, indptr@, indices@, data@, jj),
        decreases ncols - j,
    {
        let ghost start = data@.len() as int;
        let ghost indptr0 = indptr@;
        let mut i: usize = 0;
        while i < nrows
            invariant
                rows@.len() == nrows,
                forall|ii: int| 0 <= ii < nrows ==> row_no_dup(#[trigger] rows@[ii]),
                i <= nrows,
                j < ncols,
                indptr@ == indptr0,
                indptr@.len() == j + 1,
                indptr@[0] == 0,
                indices@.len() == data@.len(),
                start == indptr@[j as int],
                start <= data@.len(),
                forall|jj: int| 0 <= jj < j ==> (#[trigger] indptr@[jj]) <= indptr@[jj + 1],
                forall|jj: int| 0 <= jj <= j ==> (#[trigger] indptr@[jj]) <= start,
                forall|jj: int| 0 <= jj < j ==> csc_col_ok(rows@, indptr@, indices@, data@, jj),
                forall|p: int|
                    start <= p < data@.len() ==> (#[trigger] indices@[p]) < i && data@[p]
                        == row_col_coeff(rows@[indices@[p] as int], j as int) && data@[p] != 0,
                forall|p: int, q: int|
                    start <= p < q < data@.len() ==> (#[trigger] indices@[p]) < (
                    #[trigger] indices@[q]),
                forall|ii: int|
                    0 <= ii < i && #[trigger] row_col_coeff(rows@[ii], j as int) != 0 ==> exists|
                        p: int,
                    | start <= p < data@.len() && indices@[p] == ii,
            decreases nrows - i,
        {
            let c = coeff_at(&rows[i], j);
            if c != 0 {
                let ghost ind_pre = indices@;
                let ghost dat_pre = data@;
                indices.push(i);
                data.push(c);
                proof {
                    assert(indices@ =~= ind_pre.push(i));
                    assert(data@ =~= dat_pre.push(c));
                    assert forall|jj: int| 0 <= jj < j implies csc_col_ok(
                        rows@,
                        indptr@,
                        indices@,
                        data@,
                        jj,
                    ) by {
                        assert(csc_col_ok(rows@, indptr@, ind_pre, dat_pre, jj));
                        assert(indptr@[jj + 1] <= start);
                        assert forall|p: int|
                            indptr@[jj] <= p < indptr@[jj + 1] implies (#[trigger] indices@[p])
                            < rows@.len() && data@[p] == row_col_coeff(
                            rows@[indices@[p] as int],
                            jj,
                        ) && data@[p] != 0 by {
                            assert(indices@[p] == ind_pre[p]);
                            assert(data@[p] == dat_pre[p]);
                        }
                        assert forall|p: int, q: int|
                            indptr@[jj] <= p < q < indptr@[jj + 1] implies (
                            #[trigger] indices@[p]) < (#[trigger] indices@[q]) by {
                            assert(indices@[p] == ind_pre[p]);
                            assert(indices@[q] == ind_pre[q]);
                        }
                        assert forall|ii: int|
                            0 <= ii < rows@.len() && #[trigger] row_col_coeff(rows@[ii], jj)
                                != 0 implies exists|p: int|
                            indptr@[jj] <= p < indptr@[jj + 1] && indices@[p] == ii by {
                            let p = choose|p: int|
                                indptr@[jj] <= p < indptr@[jj + 1] && ind_pre[p] == ii;
                            assert(indices@[p] == ii);
                        }
                    }
                    assert forall|ii: int|
                        0 <= ii < i + 1 && #[trigger] row_col_coeff(rows@[ii], j as int)
                            != 0 implies exists|p: int|
                        start <= p < data@.len() && indices@[p] == ii by {
                        if ii < i {
                            let p = choose|p: int|
                                start <= p < dat_pre.len() && ind_pre[p] == ii;
                            assert(indices@[p] == ii);
                        } else {
                            assert(indices@[dat_pre.len() as int] == ii);
                        }
                    }
                }
            } else {
                proof {
                    assert forall|ii: int|
                        0 <= ii < i + 1 && #[trigger] row_col_coeff(rows@[ii], j as int)
                            != 0 implies exists|p: int|
                        start <= p < data@.len() && indices@[p] == ii by {
                        if ii == i {
                            assert(row_col_coeff(rows@[ii], j as int) == c as int);
                        }
                    }
                }
            }
            i = i + 1;
        }
        let ghost indptr_pre = indptr@;
        let dlen = data.len();
        indptr.push(dlen);
        proof {
            assert(indptr@ =~= indptr_pre.push(dlen));
            assert forall|jj: int| 0 <= jj < j + 1 implies csc_col_ok(
                rows@,
                indptr@,
                indices@,
                data@,
                jj,
            ) by {
                if jj < j {
                    assert(csc_col_ok(rows@, indptr_pre, indices@, data@, jj));
                    assert(indptr@[jj] == indptr_pre[jj]);
                    assert(indptr@[jj + 1] == indptr_pre[jj + 1]);
                } else {
                    assert(indptr@[jj] == start);
                    assert(indptr@[jj + 1] == data@.len());
                }
            }
        }
        j = j + 1;
    }
    CscData { nrows, ncols, indptr, indices, data }
}

/// Whether some monomial of the diagonal list names column `j`.
pub open spec fn diag_has_col<S>(diag: Seq<Monomial<S>>, j: int) -> bool {
    exists|k: int| 0 <= k < diag.len() && (#[trigger] diag[k]).var.index == j
}

/// The diagonal coefficient in column `j`: the coefficient of the monomial
/// naming `j`, or zero when none does.
pub open spec fn diag_col_coeff<S>(diag: Seq<Monomial<S>>, j: int) -> int {
    if diag_has_col(diag, j) {
        diag[choose|k: int|
            0 <= k < diag.len() && (#[trigger] diag[k]).var.index == j].coeff as int
    } else {
        0
    }
}

/// No two monomials of the diagonal list name the same column.
pub open spec fn diag_no_dup<S>(diag: Seq<Monomial<S>>) -> bool {
    forall|k1: int, k2: int|
        0 <= k1 < k2 < diag.len() ==> (#[trigger] diag[k1]).var.index != (
        #[trigger] diag[k2]).var.index
}

/// The diagonal coefficient the list gives column `j`.
pub fn mono_coeff_at<S: Sol>(diag: &Vec<Monomial<S>>, j: usize) -> (r: i64)
    requires
        diag_no_dup(diag@),
    ensures
        r as int == diag_col_coeff(diag@, j as int),
{
    let mut k: usize = 0;
    while k < diag.len()
        invariant
            diag_no_dup(diag@),
            k <= diag@.len(),
            forall|kk: int| 0 <= kk < k ==> (#[trigger] diag@[kk]).var.index != j,
        decreases diag@.len() - k,
    {
        if diag[k].var.index == j {
            proof {
                assert(diag_has_col(diag@, j as int));
                let kk = choose|kk: int|
                    0 <= kk < diag@.len() && (#[trigger] diag@[kk]).var.index == j;
                if kk != k {
                    assert(false);
                }
            }
            return diag[k].coeff;
        }
        k = k + 1;
    }
    proof {
        if diag_has_col(diag@, j as int) {
            let kk = choose|kk: int|
                0 <= kk < diag@.len() && (#[trigger] diag@[kk]).var.index == j;
            assert(false);
        }
    }
    0
}

/// Emit a square diagonal matrix of side `n` whose entry `(j, j)` is the
/// coefficient the list gives column `j`.
pub fn as_diag_csc_matrix<S: Sol>(n: usize, diag: &Vec<Monomial<S>>) -> (m: CscData)
    requires
        n < usize::MAX,
        diag_no_dup(diag@),
        forall|k: int| 0 <= k < diag@.len() ==> (#[trigger] diag@[k]).var.index < n,
    ensures
        m.nrows == n,
        m.ncols == n,
        m.indptr@.len() == n + 1,
        m.indices@.len() == m.data@.len(),
        m.indptr@[0] == 0,
        m.indptr@[n as int] == m.data@.len(),
        forall|j: int| 0 <= j < n ==> (#[trigger] m.indptr@[j]) <= m.indptr@[j + 1],
        forall|j: int| 0 <= j <= n ==> (#[trigger] m.indptr@[j]) <= m.data@.len(),
        forall|j: int|
            0 <= j < n && diag_col_coeff(diag@, j) != 0 ==> (#[trigger] m.indptr@[j + 1])
                == m.indptr@[j] + 1 && m.indices@[m.indptr@[j] as int] == j
                && m.data@[m.indptr@[j] as int] == diag_col_coeff(diag@, j),
        forall|j: int|
            0 <= j < n && diag_col_coeff(diag@, j) == 0 ==> (#[trigger] m.indptr@[j + 1])
                == m.indptr@[j],
{
    let mut indptr: Vec<usize> = Vec::new();
    let mut indices: Vec<usize> = Vec::new();
    let mut data: Vec<i64> = Vec::new();
    indptr.push(0);
    let mut j: usize = 0;
    while j < n
        invariant
            n < usize::MAX,
            diag_no_dup(diag@),
            j <= n,
            indptr@.len() == j + 1,
            indptr@[0] == 0,
            indices@.len() == data@.len(),
            indptr@[j as int] == data@.len(),
            data@.len() <= j,
            forall|jj: int| 0 <= jj < j ==> (#[trigger] indptr@[jj]) <= indptr@[jj + 1],
            forall|jj: int| 0 <= jj <= j ==> (#[trigger] indptr@[jj]) <= data@.len(),
            forall|jj: int|
                0 <= jj < j && diag_col_coeff(diag@, jj) != 0 ==> (#[trigger] indptr@[jj + 1])
                    == indptr@[jj] + 1 && indices@[indptr@[jj] as int] == jj
                    && data@[indptr@[jj] as int] == diag_col_coeff(diag@, jj),
            forall|jj: int|
                0 <= jj < j && diag_col_coeff(diag@, jj) == 0 ==> (#[trigger] indptr@[jj + 1])
                    == indptr@[jj],
        decreases n - j,
    {
        let ghost start = data@.len() as int;
        let c = mono_coeff_at(diag, j);
        if c != 0 {
            indices.push(j);
            data.push(c);
        }
        let dlen = data.len();
        let ghost indptr_pre = indptr@;
        indptr.push(dlen);
        proof {
            assert(indptr@ =~= indptr_pre.push(dlen));
            assert forall|jj: int| 0 <= jj <= j implies (#[trigger] indptr@[jj])
                <= data@.len() by {
                assert(indptr@[jj] == indptr_pre[jj]);
            }
            assert forall|jj: int|
                0 <= jj < j + 1 && diag_col_coeff(diag@, jj) != 0 implies (
            #[trigger] indptr@[jj + 1]) == indptr@[jj] + 1 && indices@[indptr@[jj] as int] == jj
                && data@[indptr@[jj] as int] == diag_col_coeff(diag@, jj) by {
                if jj < j {
                    assert(indptr@[jj] == indptr_pre[jj]);
                    assert(indptr@[jj + 1] == indptr_pre[jj + 1]);
                } else {
                    assert(indptr@[jj] == start);
                    assert(indices@[start] == jj);
                    assert(data@[start] == c);
                }
            }
            assert forall|jj: int|
                0 <= jj < j + 1 && diag_col_coeff(diag@, jj) == 0 implies (
            #[trigger] indptr@[jj + 1]) == indptr@[jj] by {
                if jj < j {
                    assert(indptr@[jj] == indptr_pre[jj]);
                    assert(indptr@[jj + 1] == indptr_pre[jj + 1]);
                }
            }
        }
        j = j + 1;
    }
    CscData { nrows: n, ncols: n, indptr, indices, data }
}

} // verus!
