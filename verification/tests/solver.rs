//! The DPLL engine end to end: satisfiable and unsatisfiable formulas,
//! simplification fixpoints, and model validity.

use netsat::cnf::{Cnf, Model};

/// Builds a formula from clause slices.
fn formula(clauses: &[&[i64]]) -> Cnf {
    let mut cnf = Cnf::default();
    for clause in clauses {
        cnf.add_clause(clause.to_vec());
    }
    cnf
}

/// Checks that a model satisfies at least one literal of every clause.
fn satisfies(model: &Model, clauses: &[&[i64]]) -> bool {
    clauses.iter().all(|clause| clause.iter().any(|&lit| model.contains(lit)))
}

/// A model never holds both polarities of one variable.
fn consistent_on(model: &Model, vars: &[i64]) -> bool {
    vars.iter().all(|&v| !(model.contains(v) && model.contains(-v)))
}

#[test]
fn scenario_a_satisfiable() {
    let clauses: &[&[i64]] = &[&[1, -1], &[2, -2], &[3, -3], &[-1, -2], &[-2, -3], &[1, 3]];
    let model = formula(clauses).dpll().expect("scenario A is satisfiable");
    assert!(satisfies(&model, clauses));
    assert!(consistent_on(&model, &[1, 2, 3]));
}

#[test]
fn scenario_b_unsatisfiable() {
    let clauses: &[&[i64]] = &[
        &[1, -1],
        &[2, -2],
        &[3, -3],
        &[-1, -2],
        &[-2, -3],
        &[1, 3],
        &[2],
    ];
    assert!(formula(clauses).dpll().is_none());
}

#[test]
fn scenario_b_propagation_forces_negations() {
    // The unit {2} propagates: {-1,-2} and {-2,-3} resolve to the units
    // {-1} and {-3}, which together with {1,3} leave an empty clause.
    let clauses: &[&[i64]] = &[
        &[1, -1],
        &[2, -2],
        &[3, -3],
        &[-1, -2],
        &[-2, -3],
        &[1, 3],
        &[2],
    ];
    let (rest, forced) = formula(clauses).propagate_units();
    assert!(forced.contains(2));
    assert!(forced.contains(-1));
    assert!(forced.contains(-3));
    assert_eq!(rest.clause_list(), &vec![Vec::<i64>::new()]);
}

#[test]
fn empty_formula_is_satisfiable_by_everything_unknown() {
    let model = Cnf::default().dpll().expect("empty formula is satisfiable");
    assert_eq!(model.get_bit(1), None);
    assert_eq!(model.get_bit(7), None);
}

#[test]
fn empty_clause_is_unsatisfiable() {
    let cnf = formula(&[&[]]);
    assert!(cnf.dpll().is_none());
}

#[test]
fn direct_contradiction_is_unsatisfiable() {
    assert!(formula(&[&[1], &[-1]]).dpll().is_none());
}

#[test]
fn single_unit_forces_literal() {
    let model = formula(&[&[5]]).dpll().expect("satisfiable");
    assert!(model.contains(5));
    assert!(!model.contains(-5));
    assert_eq!(model.get_bit(5), Some(true));
}

#[test]
fn negative_unit_forces_false() {
    let model = formula(&[&[-4]]).dpll().expect("satisfiable");
    assert_eq!(model.get_bit(4), Some(false));
}

#[test]
fn chained_unit_propagation() {
    // 1 is a unit; {-1, 2} resolves to the unit 2; {-2, 3} then forces 3.
    let clauses: &[&[i64]] = &[&[1], &[-1, 2], &[-2, 3]];
    let model = formula(clauses).dpll().expect("satisfiable");
    assert_eq!(model.get_bit(1), Some(true));
    assert_eq!(model.get_bit(2), Some(true));
    assert_eq!(model.get_bit(3), Some(true));
}

#[test]
fn unsatisfiable_after_propagation() {
    let clauses: &[&[i64]] = &[&[1], &[-1, 2], &[-2]];
    assert!(formula(clauses).dpll().is_none());
}

#[test]
fn branching_formula_model_is_valid() {
    // No units and no pure literals: both variables appear in both
    // polarities, so the engine must branch.
    let clauses: &[&[i64]] = &[&[1, 2], &[-1, -2]];
    let model = formula(clauses).dpll().expect("satisfiable: exactly one of the two variables true");
    assert!(satisfies(&model, clauses));
    assert!(consistent_on(&model, &[1, 2]));
}

#[test]
fn branching_unsatisfiable() {
    // All four value pairs of variables 1 and 2 are forbidden.
    let clauses: &[&[i64]] = &[&[1, 2], &[1, -2], &[-1, 2], &[-1, -2]];
    assert!(formula(clauses).dpll().is_none());
}

#[test]
fn find_unit_reports_first_unit_clause() {
    let cnf = formula(&[&[1, 2], &[3], &[4]]);
    assert_eq!(cnf.find_unit(), Some(3));
    let no_unit = formula(&[&[1, 2], &[3, 4]]);
    assert_eq!(no_unit.find_unit(), None);
}

#[test]
fn find_pure_literal_reports_pure() {
    // 2 appears only positively; 1 appears in both polarities.
    let cnf = formula(&[&[1, 2], &[-1, 2]]);
    assert_eq!(cnf.find_pure_literal(), Some(2));
    let no_pure = formula(&[&[1, -2], &[-1, 2]]);
    assert_eq!(no_pure.find_pure_literal(), None);
}

#[test]
fn unit_propagation_is_idempotent() {
    // Already unit-free: propagation must change nothing.
    let clauses: &[&[i64]] = &[&[1, 2], &[-1, -2], &[2, 3]];
    let cnf = formula(clauses);
    let before = cnf.clause_list().clone();
    let (after, forced) = cnf.propagate_units();
    assert_eq!(after.clause_list(), &before);
    for v in [1i64, 2, 3] {
        assert!(!forced.contains(v) && !forced.contains(-v));
    }
    // And a second run after a first one is also a no-op.
    let cnf = formula(&[&[1], &[-1, 2], &[2, 3]]);
    let (once, _) = cnf.propagate_units();
    let simplified = once.clause_list().clone();
    let (twice, forced) = once.propagate_units();
    assert_eq!(twice.clause_list(), &simplified);
    for v in [1i64, 2, 3] {
        assert!(!forced.contains(v) && !forced.contains(-v));
    }
}

#[test]
fn pure_literal_elimination_keeps_removed_clauses_satisfied() {
    // 3 is pure: every clause containing it is satisfied by forcing it.
    let clauses: &[&[i64]] = &[&[1, 3], &[-1, 3], &[1, -2]];
    let (rest, forced) = formula(clauses).propagate_units().0.eliminate_pure_literals();
    assert!(forced.contains(3));
    assert!(satisfies(&forced, &[&[1, 3], &[-1, 3]]));
    // elimination cascades: with the 3-clauses gone, 1 and then nothing remains
    assert!(rest.clause_list().is_empty());
}

#[test]
fn pure_literal_elimination_preserves_satisfiability() {
    let clauses: &[&[i64]] = &[&[1, 2], &[-1, 2], &[1, -2, 3], &[-3, 1]];
    let model = formula(clauses).dpll().expect("satisfiable");
    assert!(satisfies(&model, clauses));
}

#[test]
fn add_clause_drops_duplicate_literals() {
    let mut cnf = Cnf::default();
    cnf.add_clause(vec![1, 1, 2, -3, 2]);
    assert_eq!(cnf.clause_list(), &vec![vec![1, 2, -3]]);
}

#[test]
fn with_clause_appends() {
    let cnf = Cnf::default().with_clause(vec![1, 2]).with_clause(vec![-1]);
    assert_eq!(cnf.clause_list(), &vec![vec![1, 2], vec![-1]]);
}

#[test]
fn model_validity_round_trip_many_formulas() {
    // For each satisfiable formula the returned model satisfies every clause.
    let cases: &[&[&[i64]]] = &[
        &[&[1]],
        &[&[1, 2], &[-1, 2]],
        &[&[1, 2, 3], &[-1, -2], &[-2, -3], &[-1, -3]],
        &[&[1, -2], &[2, -3], &[3, -1], &[1, 2, 3]],
        &[&[-1], &[1, 2], &[-2, 3]],
    ];
    for clauses in cases {
        let model = formula(clauses).dpll().expect("satisfiable");
        assert!(satisfies(&model, clauses));
    }
}

#[test]
fn unsatisfiable_formulas_report_unsat() {
    let cases: &[&[&[i64]]] = &[
        &[&[1], &[-1]],
        &[&[1, 2], &[1, -2], &[-1, 2], &[-1, -2]],
        &[&[1], &[-1, 2], &[-2, 3], &[-3]],
    ];
    for clauses in cases {
        assert!(formula(clauses).dpll().is_none());
    }
}
