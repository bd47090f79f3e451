//! Integer-program driver: branch-and-bound over a continuous relaxation.
//!
//! The numeric relaxation itself runs outside this library (it works on
//! floating-point data); what comes back from one relaxation call is
//! summarized as a [`RelaxationOutcome`] in plain integers. Everything the
//! driver decides from such an outcome is verified here: whether the
//! rounded point satisfies every constraint row, which objective value it
//! earns, how an instance splits on a fractional variable, and how the
//! queue and the incumbent evolve.

use vstd::prelude::*;

use crate::algebra::{Constraint, Constraints, Monomial, Sol, Var, Vars};
use crate::error::{Error, LayoutError};

verus! {

/// Largest coefficient magnitude the evaluator accepts.
pub const MAX_ABS_COEFF: i64 = 1000;

/// Largest solution-value magnitude the evaluator accepts.
pub const MAX_ABS_VALUE: i64 = 1000000;

/// Largest row length the evaluator accepts.
pub const MAX_TERMS: usize = 1000000;

/// The value of `sum of c_i * x_i` over the first `n` monomials; an index
/// outside `xs` contributes nothing.
pub open spec fn comb_sum_to<S>(comb: Seq<Monomial<S>>, xs: Seq<i64>, n: int) -> int
    decreases n,
{
    if n <= 0 {
        0
    } else {
        comb_sum_to(comb, xs, n - 1) + comb[n - 1].coeff * (if comb[n - 1].var.index
            < xs.len() {
            xs[comb[n - 1].var.index as int] as int
        } else {
            0
        })
    }
}

/// The value of `sum of c_i * x_i` over the whole row.
pub open spec fn comb_sum<S>(comb: Seq<Monomial<S>>, xs: Seq<i64>) -> int {
    comb_sum_to(comb, xs, comb.len() as int)
}

/// The point `xs` satisfies the row's bounds.
pub open spec fn row_satisfied<S>(c: Constraint<S>, xs: Seq<i64>) -> bool {
    &&& c.lower as int <= comb_sum(c.comb@, xs)
    &&& match c.upper {
        Some(u) => comb_sum(c.comb@, xs) <= u as int,
        None => true,
    }
}

/// The row is small enough, and its coefficients tame enough, for exact
/// 64-bit evaluation.
pub open spec fn comb_bounded<S>(comb: Seq<Monomial<S>>) -> bool {
    &&& comb.len() <= MAX_TERMS
    &&& forall|k: int|
        0 <= k < comb.len() ==> -MAX_ABS_COEFF <= (#[trigger] comb[k]).coeff <= MAX_ABS_COEFF
}

/// Every entry of the point is tame enough for exact 64-bit evaluation.
pub open spec fn xs_bounded(xs: Seq<i64>) -> bool {
    forall|i: int| 0 <= i < xs.len() ==> -MAX_ABS_VALUE <= #[trigger] xs[i] <= MAX_ABS_VALUE
}

proof fn lemma_comb_sum_bound<S>(comb: Seq<Monomial<S>>, xs: Seq<i64>, n: int)
    requires
        comb_bounded(comb),
        xs_bounded(xs),
        0 <= n <= comb.len(),
    ensures
        -n * (MAX_ABS_COEFF * MAX_ABS_VALUE) <= comb_sum_to(comb, xs, n) <= n * (MAX_ABS_COEFF
            * MAX_ABS_VALUE),
    decreases n,
{
    if n > 0 {
        lemma_comb_sum_bound(comb, xs, n - 1);
        let c = comb[n - 1].coeff as int;
        let x: int = if comb[n - 1].var.index < xs.len() {
            xs[comb[n - 1].var.index as int] as int
        } else {
            0
        };
        assert(-(MAX_ABS_COEFF * MAX_ABS_VALUE) <= c * x <= MAX_ABS_COEFF * MAX_ABS_VALUE)
            by (nonlinear_arith)
            requires
                -MAX_ABS_COEFF <= c <= MAX_ABS_COEFF,
                -MAX_ABS_VALUE <= x <= MAX_ABS_VALUE,
        ;
        assert((n - 1) * (MAX_ABS_COEFF * MAX_ABS_VALUE) + MAX_ABS_COEFF * MAX_ABS_VALUE == n * (
        MAX_ABS_COEFF * MAX_ABS_VALUE)) by (nonlinear_arith);
    }
}

/// Evaluate `sum of c_i * x_i` exactly.
pub fn row_sum<S: Sol>(comb: &Vec<Monomial<S>>, xs: &Vec<i64>) -> (r: i64)
    requires
        comb_bounded(comb@),
        xs_bounded(xs@),
    ensures
        r as int == comb_sum(comb@, xs@),
{
    let mut acc: i64 = 0;
    let mut k: usize = 0;
    proof {
        lemma_comb_sum_bound(comb@, xs@, 0);
    }
    while k < comb.len()
        invariant
            comb_bounded(comb@),
            xs_bounded(xs@),
            k <= comb@.len(),
            acc as int == comb_sum_to(comb@, xs@, k as int),
            -(k as int) * (MAX_ABS_COEFF * MAX_ABS_VALUE) <= acc as int <= (k as int) * (
            MAX_ABS_COEFF * MAX_ABS_VALUE),
        decreases comb@.len() - k,
    {
        let m = comb[k];
        let x: i64 = if m.var.index < xs.len() {
            xs[m.var.index]
        } else {
            0
        };
        proof {
            assert(-(MAX_ABS_COEFF * MAX_ABS_VALUE) <= (m.coeff as int) * (x as int)
                <= MAX_ABS_COEFF * MAX_ABS_VALUE) by (nonlinear_arith)
                requires
                    -MAX_ABS_COEFF <= m.coeff as int <= MAX_ABS_COEFF,
                    -MAX_ABS_VALUE <= x as int <= MAX_ABS_VALUE,
            ;
            assert((k as int) * (MAX_ABS_COEFF * MAX_ABS_VALUE) + MAX_ABS_COEFF * MAX_ABS_VALUE
                == (k as int + 1) * (MAX_ABS_COEFF * MAX_ABS_VALUE)) by (nonlinear_arith);
            assert(-((k as int + 1) * (MAX_ABS_COEFF * MAX_ABS_VALUE)) == -(k as int) * (
            MAX_ABS_COEFF * MAX_ABS_VALUE) - MAX_ABS_COEFF * MAX_ABS_VALUE) by (nonlinear_arith);
            lemma_comb_sum_bound(comb@, xs@, k as int);
        }
        acc = acc + m.coeff * x;
        k = k + 1;
    }
    acc
}

/// What one continuous-relaxation call reports, in plain integers:
/// whether its bound already matched or exceeded the best known objective,
/// the first column whose relaxed value strayed too far from an integer,
/// and the relaxed values rounded to the nearest integers.
#[derive(Clone, Debug)]
pub struct RelaxationOutcome {
    pub not_as_good: bool,
    pub fractional: Option<usize>,
    pub xs: Vec<i64>,
}

/// How an instance fared: dominated by the incumbent, split on a
/// fractional variable, integrally infeasible at some row, or solved with
/// an objective value and an integral point.
#[derive(Clone, Debug)]
pub enum ILPStatus<S> {
    NotAsGood,
    NotIntegral(Var<S>),
    IntegerInfeasible(usize),
    Solved(i64, Vec<i64>),
}

/// One node of the branch-and-bound tree: a variable registry, constraint
/// rows, and a linear objective.
#[derive(Debug)]
pub struct ILPInstance<S> {
    pub vars: Vars<S>,
    pub csp: Constraints<S>,
    pub obj: Vec<Monomial<S>>,
}

/// Copy a vector of identifiers.
fn copy_sols<S: Sol>(xs: &Vec<S>) -> (r: Vec<S>)
    ensures
        r@ =~= xs@,
{
    let mut out: Vec<S> = Vec::new();
    let mut i: usize = 0;
    while i < xs.len()
        invariant
            i <= xs@.len(),
            out@ =~= xs@.take(i as int),
        decreases xs@.len() - i,
    {
        out.push(xs[i]);
        proof {
            assert(xs@.take(i + 1 as int) =~= xs@.take(i as int).push(xs@[i as int]));
        }
        i = i + 1;
    }
    proof {
        assert(xs@.take(xs@.len() as int) =~= xs@);
    }
    out
}

/// Copy a vector of monomials.
fn copy_monomials<S: Sol>(xs: &Vec<Monomial<S>>) -> (r: Vec<Monomial<S>>)
    ensures
        r@ =~= xs@,
{
    let mut out: Vec<Monomial<S>> = Vec::new();
    let mut i: usize = 0;
    while i < xs.len()
        invariant
            i <= xs@.len(),
            out@ =~= xs@.take(i as int),
        decreases xs@.len() - i,
    {
        out.push(xs[i]);
        proof {
            assert(xs@.take(i + 1 as int) =~= xs@.take(i as int).push(xs@[i as int]));
        }
        i = i + 1;
    }
    proof {
        assert(xs@.take(xs@.len() as int) =~= xs@);
    }
    out
}

/// Copy a list of constraint rows.
fn copy_constraints<S: Sol>(cs: &Constraints<S>) -> (r: Constraints<S>)
    ensures
        r.constrs@.len() == cs.constrs@.len(),
        forall|i: int|
            0 <= i < cs.constrs@.len() ==> (#[trigger] r.constrs@[i]).lower
                == cs.constrs@[i].lower && r.constrs@[i].upper == cs.constrs@[i].upper
                && r.constrs@[i].comb@ =~= cs.constrs@[i].comb@,
{
    let mut out: Vec<Constraint<S>> = Vec::new();
    let mut i: usize = 0;
    while i < cs.constrs.len()
        invariant
            i <= cs.constrs@.len(),
            out@.len() == i,
            forall|j: int|
                0 <= j < i ==> (#[trigger] out@[j]).lower == cs.constrs@[j].lower
                    && out@[j].upper == cs.constrs@[j].upper && out@[j].comb@
                    =~= cs.constrs@[j].comb@,
        decreases cs.constrs@.len() - i,
    {
        let row = &cs.constrs[i];
        let comb = copy_monomials(&row.comb);
        let c = Constraint { lower: row.lower, comb, upper: row.upper };
        let ghost pre = out@;
        out.push(c);
        proof {
            assert(out@ =~= pre.push(c));
            assert forall|j: int|
                0 <= j < i + 1 implies (#[trigger] out@[j]).lower == cs.constrs@[j].lower
                && out@[j].upper == cs.constrs@[j].upper && out@[j].comb@
                =~= cs.constrs@[j].comb@ by {
                if j < i {
                    assert(out@[j] == pre[j]);
                }
            }
        }
        i = i + 1;
    }
    Constraints { constrs: out }
}

impl<S: Sol> ILPInstance<S> {
    /// Every row and the objective are well formed over the registry, and
    /// within the evaluator's numeric bounds.
    pub open spec fn wf(self) -> bool {
        &&& self.vars.wf()
        &&& forall|i: int|
            0 <= i < self.csp.constrs@.len() ==> comb_bounded(
                (#[trigger] self.csp.constrs@[i]).comb@,
            )
        &&& comb_bounded(self.obj@)
    }

    /// A deep copy of this instance.
    pub fn duplicate(&self) -> (r: Self)
        ensures
            r.vars.sols@ =~= self.vars.sols@,
            r.csp.constrs@.len() == self.csp.constrs@.len(),
            forall|i: int|
                0 <= i < self.csp.constrs@.len() ==> (#[trigger] r.csp.constrs@[i]).lower
                    == self.csp.constrs@[i].lower && r.csp.constrs@[i].upper
                    == self.csp.constrs@[i].upper && r.csp.constrs@[i].comb@
                    =~= self.csp.constrs@[i].comb@,
            r.obj@ =~= self.obj@,
    {
        ILPInstance {
            vars: Vars { sols: copy_sols(&self.vars.sols) },
            csp: copy_constraints(&self.csp),
            obj: copy_monomials(&self.obj),
        }
    }

    /// Decide the fate of this instance from the relaxation outcome: pass
    /// on domination, report the fractional variable, find the first
    /// violated row of the rounded point, or accept the point and price it.
    pub fn assess(&self, outcome: &RelaxationOutcome) -> (r: Result<ILPStatus<S>, Error>)
        requires
            self.wf(),
            xs_bounded(outcome.xs@),
        ensures
            match r {
                Ok(ILPStatus::NotAsGood) => outcome.not_as_good,
                Ok(ILPStatus::NotIntegral(v)) => !outcome.not_as_good
                    && outcome.fractional == Some(v.index) && v.index
                    < self.vars.sols@.len() && v.sol == self.vars.sols@[v.index as int],
                Ok(ILPStatus::IntegerInfeasible(i)) => !outcome.not_as_good
                    && outcome.fractional is None && 0 <= i < self.csp.constrs@.len()
                    && !row_satisfied(self.csp.constrs@[i as int], outcome.xs@) && (forall|
                    j: int,
                |
                    0 <= j < i ==> row_satisfied(
                        #[trigger] self.csp.constrs@[j],
                        outcome.xs@,
                    )),
                Ok(ILPStatus::Solved(b, xs)) => !outcome.not_as_good
                    && outcome.fractional is None && xs@ =~= outcome.xs@ && b as int
                    == comb_sum(self.obj@, outcome.xs@) && (forall|j: int|
                    0 <= j < self.csp.constrs@.len() ==> row_satisfied(
                        #[trigger] self.csp.constrs@[j],
                        outcome.xs@,
                    )),
                Err(_) => !outcome.not_as_good && (match outcome.fractional {
                    Some(idx) => idx >= self.vars.sols@.len(),
                    None => false,
                }),
            },
    {
        if outcome.not_as_good {
            return Ok(ILPStatus::NotAsGood);
        }
        match outcome.fractional {
            Some(idx) => {
                if idx < self.vars.sols.len() {
                    return Ok(ILPStatus::NotIntegral(Var { index: idx, sol: self.vars.sols[idx] }));
                }
                return Err(
                    Error::LayoutError {
                        source: LayoutError::OsqpError {
                            error: "missing fractional index".to_owned(),
                        },
                    },
                );
            },
            None => {},
        }
        let mut i: usize = 0;
        while i < self.csp.constrs.len()
            invariant
                self.wf(),
                xs_bounded(outcome.xs@),
                !outcome.not_as_good,
                outcome.fractional is None,
                i <= self.csp.constrs@.len(),
                forall|j: int|
                    0 <= j < i ==> row_satisfied(#[trigger] self.csp.constrs@[j], outcome.xs@),
            decreases self.csp.constrs@.len() - i,
        {
            let row = &self.csp.constrs[i];
            let s = row_sum(&row.comb, &outcome.xs);
            if s < row.lower {
                return Ok(ILPStatus::IntegerInfeasible(i));
            }
            match row.upper {
                Some(u) => {
                    if s > u {
                        return Ok(ILPStatus::IntegerInfeasible(i));
                    }
                },
                None => {},
            }
            i = i + 1;
        }
        let b = row_sum(&self.obj, &outcome.xs);
        let xs = copy_i64s(&outcome.xs);
        Ok(ILPStatus::Solved(b, xs))
    }

    /// Split on a fractional variable: one child pins it to 0, the other
    /// to 1.
    pub fn branch(&self, split: Var<S>) -> (r: (Self, Self))
        ensures
            r.0.vars.sols@ =~= self.vars.sols@,
            r.1.vars.sols@ =~= self.vars.sols@,
            r.0.obj@ =~= self.obj@,
            r.1.obj@ =~= self.obj@,
            r.0.csp.constrs@.len() == self.csp.constrs@.len() + 1,
            r.1.csp.constrs@.len() == self.csp.constrs@.len() + 1,
            forall|i: int|
                0 <= i < self.csp.constrs@.len() ==> (#[trigger] r.0.csp.constrs@[i]).lower
                    == self.csp.constrs@[i].lower && r.0.csp.constrs@[i].upper
                    == self.csp.constrs@[i].upper && r.0.csp.constrs@[i].comb@
                    =~= self.csp.constrs@[i].comb@,
            forall|i: int|
                0 <= i < self.csp.constrs@.len() ==> (#[trigger] r.1.csp.constrs@[i]).lower
                    == self.csp.constrs@[i].lower && r.1.csp.constrs@[i].upper
                    == self.csp.constrs@[i].upper && r.1.csp.constrs@[i].comb@
                    =~= self.csp.constrs@[i].comb@,
            r.0.csp.constrs@.last().lower == 0 && r.0.csp.constrs@.last().upper == Some(0i64)
                && r.0.csp.constrs@.last().comb@.len() == 1
                && r.0.csp.constrs@.last().comb@[0].coeff == 1
                && r.0.csp.constrs@.last().comb@[0].var == split,
            r.1.csp.constrs@.last().lower == 1 && r.1.csp.constrs@.last().upper == Some(1i64)
                && r.1.csp.constrs@.last().comb@.len() == 1
                && r.1.csp.constrs@.last().comb@[0].coeff == 1
                && r.1.csp.constrs@.last().comb@[0].var == split,
    {
        let mut floor = self.duplicate();
        let mut ceil = self.duplicate();
        let mut mono0: Vec<Monomial<S>> = Vec::new();
        mono0.push(Monomial { var: split, coeff: 1 });
        let mut mono1: Vec<Monomial<S>> = Vec::new();
        mono1.push(Monomial { var: split, coeff: 1 });
        floor.csp.push(Constraint { lower: 0, comb: mono0, upper: Some(0) });
        ceil.csp.push(Constraint { lower: 1, comb: mono1, upper: Some(1) });
        (floor, ceil)
    }
}

/// Copy a vector of solution values.
pub fn copy_i64s(xs: &Vec<i64>) -> (r: Vec<i64>)
    ensures
        r@ =~= xs@,
{
    let mut out: Vec<i64> = Vec::new();
    let mut i: usize = 0;
    while i < xs.len()
        invariant
            i <= xs@.len(),
            out@ =~= xs@.take(i as int),
        decreases xs@.len() - i,
    {
        out.push(xs[i]);
        proof {
            assert(xs@.take(i + 1 as int) =~= xs@.take(i as int).push(xs@[i as int]));
        }
        i = i + 1;
    }
    proof {
        assert(xs@.take(xs@.len() as int) =~= xs@);
    }
    out
}

/// An integer program: the root instance of the branch-and-bound search.
#[derive(Debug)]
pub struct ILP<S> {
    pub vars: Vars<S>,
    pub csp: Constraints<S>,
    pub obj: Vec<Monomial<S>>,
}

impl<S: Sol> ILP<S> {
    /// Wrap a built problem.
    pub fn new(vars: Vars<S>, csp: Constraints<S>, obj: Vec<Monomial<S>>) -> (r: Self)
        ensures
            r.vars == vars,
            r.csp == csp,
            r.obj == obj,
    {
        ILP { vars, csp, obj }
    }
}

/// The state of the branch-and-bound search: the open instances and the
/// best integral solution found so far, if any.
#[derive(Debug)]
pub struct BranchAndBound<S> {
    pub queue: Vec<ILPInstance<S>>,
    pub best: Option<(i64, Vec<i64>)>,
}

impl<S: Sol> BranchAndBound<S> {
    /// Start the search at the root instance.
    pub fn new(ilp: ILP<S>) -> (r: Self)
        ensures
            r.queue@.len() == 1,
            r.queue@[0].vars == ilp.vars,
            r.queue@[0].csp == ilp.csp,
            r.queue@[0].obj == ilp.obj,
            r.best is None,
    {
        let ILP { vars, csp, obj } = ilp;
        let mut queue: Vec<ILPInstance<S>> = Vec::new();
        queue.push(ILPInstance { vars, csp, obj });
        BranchAndBound { queue, best: None }
    }

    /// The search ends when no instance is open or the best objective has
    /// reached zero, the known lower bound for crossing counts.
    pub fn done(&self) -> (r: bool)
        ensures
            r == (self.queue@.len() == 0 || (match self.best {
                Some((b, _)) => b == 0,
                None => false,
            })),
    {
        if self.queue.len() == 0 {
            return true;
        }
        match &self.best {
            Some((b, _)) => *b == 0,
            None => false,
        }
    }

    /// Remove and return the instance at `pick`, filling the hole with the
    /// last instance.
    pub fn take(&mut self, pick: usize) -> (r: ILPInstance<S>)
        requires
            pick < old(self).queue@.len(),
        ensures
            final(self).best == old(self).best,
            final(self).queue@.len() == old(self).queue@.len() - 1,
            r == old(self).queue@[pick as int],
            final(self).queue@ =~= old(self).queue@.update(
                pick as int,
                old(self).queue@.last(),
            ).drop_last(),
    {
        let r = self.queue.swap_remove(pick);
        r
    }

    /// Fold one assessed status into the search state: a fractional split
    /// enqueues the two children, a solved instance improves the incumbent
    /// when its objective is strictly better, and anything else drops the
    /// instance.
    pub fn absorb(&mut self, inst: &ILPInstance<S>, status: ILPStatus<S>)
        ensures
            match status {
                ILPStatus::NotIntegral(v) => final(self).best == old(self).best && final(self).queue@.len() == old(self).queue@.len() + 2 && (forall|i: int|
                    0 <= i < old(self).queue@.len() ==> final(self).queue@[i] == old(self).queue@[i]),
                ILPStatus::Solved(b, xs) => final(self).queue == old(self).queue && (match old(
                    self).best {
                    None => final(self).best == Some((b, xs)),
                    Some((b0, _)) => (b < b0 ==> final(self).best == Some((b, xs))) && (b >= b0
                        ==> final(self).best == old(self).best),
                }),
                ILPStatus::NotAsGood => *final(self) == *old(self),
                ILPStatus::IntegerInfeasible(_) => *final(self) == *old(self),
            },
    {
        match status {
            ILPStatus::NotIntegral(v) => {
                let (floor, ceil) = inst.branch(v);
                let ghost pre = self.queue@;
                self.queue.push(floor);
                self.queue.push(ceil);
                proof {
                    assert forall|i: int| 0 <= i < pre.len() implies final(self).queue@[i]
                        == pre[i] by {
                    }
                }
            },
            ILPStatus::Solved(b, xs) => {
                let replace: bool = match &self.best {
                    None => true,
                    Some((b0, _)) => b < *b0,
                };
                if replace {
                    self.best = Some((b, xs));
                }
            },
            ILPStatus::NotAsGood => {},
            ILPStatus::IntegerInfeasible(_) => {},
        }
    }

    /// The best integral solution, or the infeasibility error when none
    /// was ever found.
    pub fn finish(self) -> (r: Result<(i64, Vec<i64>), Error>)
        ensures
            match self.best {
                Some(best) => r == Ok::<(i64, Vec<i64>), Error>(best),
                None => r is Err,
            },
    {
        match self.best {
            Some(best) => Ok(best),
            None => Err(
                Error::LayoutError {
                    source: LayoutError::OsqpError {
                        error: "infeasible".to_owned(),
                    },
                },
            ),
        }
    }
}

} // verus!
