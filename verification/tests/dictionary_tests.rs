//! The slack dictionary and the simplex driver over the exact integer
//! scalar: construction, the auxiliary variable, pivoting, and a small
//! all-integer solve.

use rustplex::dict_variable::DictionaryVariable;
use rustplex::dictionary::SlackDictionary;
use rustplex::expression::{Coeff, LinearExpr};
use rustplex::keys::StandardVariableKey;
use rustplex::numeric::IntCoeff;
use rustplex::solver::{SimplexSolver, SolverConfig, SolverSolution};
use rustplex::standardize::{reconstruct_value, VariableMapping};
use rustplex::status::SolverStatus;

fn ns(i: u64) -> DictionaryVariable {
    DictionaryVariable::new_non_slack(StandardVariableKey::new(i))
}

fn c(v: i64) -> IntCoeff {
    IntCoeff::new(v)
}

/// The row of a standard constraint `Σ aᵢxᵢ ≤ b`: the expression
/// `b − Σ aᵢxᵢ`.
fn std_row(terms: &[(u64, i64)], b: i64) -> LinearExpr<DictionaryVariable, IntCoeff> {
    let mut e = LinearExpr::with_constant(c(b));
    for &(v, coeff) in terms {
        e.add_term(ns(v), c(-coeff));
    }
    e
}

fn std_objective(terms: &[(u64, i64)]) -> LinearExpr<DictionaryVariable, IntCoeff> {
    let mut e = LinearExpr::new();
    for &(v, coeff) in terms {
        e.add_term(ns(v), c(coeff));
    }
    e
}

#[test]
fn test_from_rows_assigns_slack_basics() {
    let rows = vec![std_row(&[(0, 1)], 2), std_row(&[(1, 1)], 3)];
    let dict = SlackDictionary::from_rows(rows, std_objective(&[(0, 1), (1, 1)]));

    assert_eq!(dict.num_rows(), 2);
    assert_eq!(dict.row_basic(0), DictionaryVariable::Slack(0));
    assert_eq!(dict.row_basic(1), DictionaryVariable::Slack(1));
    assert_eq!(dict.row_constant(0), c(2));
    assert_eq!(dict.row_constant(1), c(3));
    assert_eq!(dict.row_coefficient(0, &ns(0)), c(-1));
    assert_eq!(dict.row_coefficient(0, &ns(1)), c(0));
    assert_eq!(dict.objective_value(), c(0));
}

#[test]
fn test_pivot_swaps_basic_and_rewrites_row() {
    // slack0 = 2 - x; pivot x in: x = 2 - slack0.
    let rows = vec![std_row(&[(0, 1)], 2)];
    let mut dict = SlackDictionary::from_rows(rows, std_objective(&[(0, 1)]));

    dict.pivot(ns(0), 0);

    assert_eq!(dict.row_basic(0), ns(0));
    assert_eq!(dict.row_constant(0), c(2));
    assert_eq!(dict.row_coefficient(0, &DictionaryVariable::Slack(0)), c(-1));
    assert_eq!(dict.row_coefficient(0, &ns(0)), c(0));
    // The objective x becomes 2 - slack0.
    assert_eq!(dict.objective_value(), c(2));
}

#[test]
fn test_auxiliary_enters_and_leaves_all_rows() {
    let rows = vec![std_row(&[(0, 1)], -1), std_row(&[(1, 1)], 4)];
    let mut dict = SlackDictionary::from_rows(rows, std_objective(&[(0, 1)]));
    let aux = DictionaryVariable::new_auxiliary();

    dict.add_var_to_all_entries(aux, IntCoeff::one());
    assert_eq!(dict.row_coefficient(0, &aux), c(1));
    assert_eq!(dict.row_coefficient(1, &aux), c(1));

    dict.remove_var_from_all_entries(aux);
    assert_eq!(dict.row_coefficient(0, &aux), c(0));
    assert_eq!(dict.row_coefficient(1, &aux), c(0));
}

#[test]
fn test_remove_entry_drops_a_row() {
    let rows = vec![std_row(&[(0, 1)], 2), std_row(&[(1, 1)], 3)];
    let mut dict = SlackDictionary::from_rows(rows, std_objective(&[(0, 1)]));

    dict.remove_entry(0);

    assert_eq!(dict.num_rows(), 1);
    assert_eq!(dict.row_basic(0), DictionaryVariable::Slack(1));
    assert_eq!(dict.row_constant(0), c(3));
}

#[test]
fn test_replace_objective_returns_previous() {
    let rows = vec![std_row(&[(0, 1)], 2)];
    let mut dict = SlackDictionary::from_rows(rows, std_objective(&[(0, 5)]));

    let previous = dict.replace_objective(std_objective(&[(0, 7)]));

    assert_eq!(previous.num_terms(), 1);
    assert_eq!(previous.coefficient(&ns(0)), c(5));
    assert_eq!(dict.objective_expr().coefficient(&ns(0)), c(7));
}

#[test]
fn test_integer_solve_two_bounds() {
    // max x + y s.t. x <= 2, y <= 3 over exact integers.
    let rows = vec![std_row(&[(0, 1)], 2), std_row(&[(1, 1)], 3)];
    let dict = SlackDictionary::from_rows(rows, std_objective(&[(0, 1), (1, 1)]));
    let mut solver = SimplexSolver::new(dict, SolverConfig::new(100, IntCoeff::zero()));

    let solution = solver.start();

    assert!(matches!(solution.status, SolverStatus::Optimal));
    assert_eq!(solution.objective_value, Some(c(5)));
    assert_eq!(solution.value(StandardVariableKey::new(0)), c(2));
    assert_eq!(solution.value(StandardVariableKey::new(1)), c(3));
    assert_eq!(solution.value(StandardVariableKey::new(9)), c(0));
}

#[test]
fn test_integer_solve_needs_phase_one() {
    // max -x s.t. x >= 1, x <= 4: the negative row constant forces the
    // auxiliary phase; the optimum sits at x = 1.
    let rows = vec![std_row(&[(0, -1)], -1), std_row(&[(0, 1)], 4)];
    let dict = SlackDictionary::from_rows(rows, std_objective(&[(0, -1)]));
    let mut solver = SimplexSolver::new(dict, SolverConfig::new(100, IntCoeff::zero()));

    let solution = solver.start();

    assert!(matches!(solution.status, SolverStatus::Optimal));
    assert_eq!(solution.objective_value, Some(c(-1)));
    assert_eq!(solution.value(StandardVariableKey::new(0)), c(1));
}

#[test]
fn test_integer_solve_infeasible() {
    // x >= 3 and x <= 1 cannot both hold.
    let rows = vec![std_row(&[(0, -1)], -3), std_row(&[(0, 1)], 1)];
    let dict = SlackDictionary::from_rows(rows, std_objective(&[(0, 1)]));
    let mut solver = SimplexSolver::new(dict, SolverConfig::new(100, IntCoeff::zero()));

    let solution = solver.start();

    assert!(matches!(solution.status, SolverStatus::Infeasible));
    assert_eq!(solution.objective_value, None);
    assert_eq!(solution.value(StandardVariableKey::new(0)), c(0));
}

#[test]
fn test_reconstruct_value() {
    let solution: SolverSolution<IntCoeff> = SolverSolution {
        status: SolverStatus::Optimal,
        objective_value: Some(c(5)),
        variable_values: Some(vec![
            (StandardVariableKey::new(0), c(4)),
            (StandardVariableKey::new(1), c(2)),
        ]),
        iterations: 1,
    };

    let positive = VariableMapping::Positive { var: StandardVariableKey::new(0), shift: c(3) };
    assert_eq!(reconstruct_value(&positive, &solution), c(7));

    let negative = VariableMapping::Negative { var: StandardVariableKey::new(1), shift: c(10) };
    assert_eq!(reconstruct_value(&negative, &solution), c(8));

    let split = VariableMapping::Split {
        pos: StandardVariableKey::new(0),
        neg: StandardVariableKey::new(1),
    };
    assert_eq!(reconstruct_value(&split, &solution), c(2));

    // A variable the solver never listed reads as zero.
    let absent = VariableMapping::Positive { var: StandardVariableKey::new(9), shift: c(3) };
    assert_eq!(reconstruct_value(&absent, &solution), c(3));
}
