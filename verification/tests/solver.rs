//! Unit exercises of the constraint algebra and the integer-program
//! driver.

use graph_drawing::algebra::{as_csc_matrix, as_diag_csc_matrix, Constraint, Constraints, Monomial, Vars};
use graph_drawing::crossing::AnySol;
use graph_drawing::ilp::{BranchAndBound, ILPInstance, ILPStatus, RelaxationOutcome, ILP};
use graph_drawing::strings::str_lt;

fn x(i: usize) -> AnySol {
    AnySol::X(0, i, i + 1)
}

fn tiny_instance() -> ILPInstance<AnySol> {
    // 0 <= a + b <= 1, both variables 0-1
    let mut vars: Vars<AnySol> = Vars::new();
    let mut csp: Constraints<AnySol> = Constraints::new();
    let ma = vars.get(x(0));
    let mb = vars.get(x(1));
    csp.push(Constraint { lower: 0, comb: vec![ma, mb], upper: Some(1) });
    csp.push(Constraint { lower: 0, comb: vec![ma], upper: Some(1) });
    csp.push(Constraint { lower: 0, comb: vec![mb], upper: Some(1) });
    let obj = vec![ma];
    ILPInstance { vars, csp, obj }
}

#[test]
fn assess_accepts_a_feasible_point() {
    let inst = tiny_instance();
    let outcome = RelaxationOutcome { not_as_good: false, fractional: None, xs: vec![1, 0] };
    match inst.assess(&outcome).expect("assess") {
        ILPStatus::Solved(b, xs) => {
            assert_eq!(b, 1);
            assert_eq!(xs, vec![1, 0]);
        }
        other => panic!("expected solved, got {:?}", other),
    }
}

#[test]
fn assess_finds_the_first_violated_row() {
    let inst = tiny_instance();
    let outcome = RelaxationOutcome { not_as_good: false, fractional: None, xs: vec![1, 1] };
    match inst.assess(&outcome).expect("assess") {
        ILPStatus::IntegerInfeasible(i) => assert_eq!(i, 0),
        other => panic!("expected infeasible, got {:?}", other),
    }
}

#[test]
fn assess_reports_fractional_variables() {
    let inst = tiny_instance();
    let outcome =
        RelaxationOutcome { not_as_good: false, fractional: Some(1), xs: vec![0, 0] };
    match inst.assess(&outcome).expect("assess") {
        ILPStatus::NotIntegral(v) => {
            assert_eq!(v.index, 1);
            assert_eq!(v.sol, x(1));
        }
        other => panic!("expected fractional, got {:?}", other),
    }
}

#[test]
fn assess_respects_domination() {
    let inst = tiny_instance();
    let outcome = RelaxationOutcome { not_as_good: true, fractional: None, xs: vec![0, 0] };
    assert!(matches!(inst.assess(&outcome).expect("assess"), ILPStatus::NotAsGood));
}

#[test]
fn assess_rejects_out_of_range_fractional_index() {
    let inst = tiny_instance();
    let outcome =
        RelaxationOutcome { not_as_good: false, fractional: Some(9), xs: vec![0, 0] };
    assert!(matches!(
        inst.assess(&outcome),
        Err(graph_drawing::error::Error::LayoutError { .. })
    ));
}

#[test]
fn branch_pins_the_variable_both_ways() {
    let inst = tiny_instance();
    let v = graph_drawing::algebra::Var { index: 0, sol: x(0) };
    let (floor, ceil) = inst.branch(v);
    let fr = floor.csp.constrs.last().unwrap();
    assert_eq!(fr.lower, 0);
    assert_eq!(fr.upper, Some(0));
    assert_eq!(fr.comb.len(), 1);
    assert_eq!(fr.comb[0].var.index, 0);
    let cr = ceil.csp.constrs.last().unwrap();
    assert_eq!(cr.lower, 1);
    assert_eq!(cr.upper, Some(1));
}

#[test]
fn branch_and_bound_keeps_the_best_incumbent() {
    let inst = tiny_instance();
    let ilp = ILP::new(
        Vars { sols: inst.vars.sols.clone() },
        Constraints { constrs: inst.csp.constrs.clone() },
        inst.obj.clone(),
    );
    let mut bb = BranchAndBound::new(ilp);
    assert!(!bb.done());
    let popped = bb.take(0);
    bb.absorb(&popped, ILPStatus::Solved(1, vec![1, 0]));
    assert!(bb.done() || !bb.done());
    bb.absorb(&popped, ILPStatus::Solved(0, vec![0, 0]));
    assert!(bb.done());
    let (bound, xs) = bb.finish().expect("solution");
    assert_eq!(bound, 0);
    assert_eq!(xs, vec![0, 0]);
}

#[test]
fn branch_and_bound_without_solution_is_infeasible() {
    let inst = tiny_instance();
    let ilp = ILP::new(
        Vars { sols: inst.vars.sols.clone() },
        Constraints { constrs: inst.csp.constrs.clone() },
        inst.obj.clone(),
    );
    let mut bb = BranchAndBound::new(ilp);
    let popped = bb.take(0);
    bb.absorb(&popped, ILPStatus::NotAsGood);
    assert!(bb.done());
    assert!(bb.finish().is_err());
}

#[test]
fn csc_matrix_exact_content() {
    // rows: 0 <= -a + b, 1 <= a
    let mut vars: Vars<AnySol> = Vars::new();
    let a = vars.get(x(0));
    let b = vars.get(x(1));
    let rows = vec![
        Constraint { lower: 0, comb: vec![a.negate(), b], upper: None },
        Constraint { lower: 1, comb: vec![a], upper: None },
    ];
    let m = as_csc_matrix(2, 2, &rows);
    assert_eq!(m.nrows, 2);
    assert_eq!(m.ncols, 2);
    assert_eq!(m.indptr, vec![0, 2, 3]);
    assert_eq!(m.indices, vec![0, 1, 0]);
    assert_eq!(m.data, vec![-1, 1, 1]);
}

#[test]
fn diag_csc_matrix_exact_content() {
    let mut vars: Vars<AnySol> = Vars::new();
    let _ = vars.get(x(0));
    let t = vars.get(x(1));
    let diag = vec![Monomial { var: t.var, coeff: 100 }];
    let m = as_diag_csc_matrix(2, &diag);
    assert_eq!(m.indptr, vec![0, 0, 1]);
    assert_eq!(m.indices, vec![1]);
    assert_eq!(m.data, vec![100]);
}

#[test]
fn vars_assign_stable_indices() {
    let mut vars: Vars<AnySol> = Vars::new();
    let a = vars.get(x(0));
    let b = vars.get(x(1));
    let a2 = vars.get(x(0));
    assert_eq!(a.var.index, 0);
    assert_eq!(b.var.index, 1);
    assert_eq!(a2.var.index, 0);
    assert_eq!(vars.len(), 2);
}

#[test]
fn constraint_helpers_push_expected_rows() {
    let mut vars: Vars<AnySol> = Vars::new();
    let mut csp: Constraints<AnySol> = Constraints::new();
    csp.leq(&mut vars, x(0), x(1));
    csp.leqc(&mut vars, x(0), x(1), 7);
    csp.geqc(&mut vars, x(0), x(1), 3);
    let r0 = &csp.constrs[0];
    assert_eq!(r0.lower, 0);
    assert!(r0.upper.is_none());
    assert_eq!((r0.comb[0].coeff, r0.comb[1].coeff), (-1, 1));
    let r1 = &csp.constrs[1];
    assert_eq!(r1.lower, 7);
    let r2 = &csp.constrs[2];
    assert_eq!(r2.lower, 3);
    assert_eq!((r2.comb[0].coeff, r2.comb[1].coeff), (1, -1));
    // a symmetry penalty introduces the auxiliary equality and weight
    let mut pd = Vec::new();
    csp.sym(&mut vars, &mut pd, x(0), x(1));
    assert_eq!(pd.len(), 1);
    assert_eq!(pd[0].coeff, 100);
    let last = csp.constrs.last().unwrap();
    assert_eq!(last.lower, 0);
    assert_eq!(last.upper, Some(0));
    assert_eq!(last.comb.len(), 3);
}

#[test]
fn byte_order_on_names() {
    assert!(str_lt("ab", "b"));
    assert!(str_lt("a", "ab"));
    assert!(!str_lt("b", "ab"));
    assert!(!str_lt("same", "same"));
}
