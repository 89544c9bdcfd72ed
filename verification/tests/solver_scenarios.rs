//! End-to-end solves through the library's simplex engine, driven by a
//! floating-point scalar supplied from outside, as an application would.

use rustplex::dict_variable::DictionaryVariable;
use rustplex::dictionary::SlackDictionary;
use rustplex::expression::{Coeff, LinearExpr};
use rustplex::keys::StandardVariableKey;
use rustplex::solver::{SimplexSolver, SolverConfig, SolverSolution};
use rustplex::standardize::{objective_negated, ObjectiveSense};
use rustplex::status::SolverStatus;

const TOLERANCE: f64 = 1e-10;
const EPSILON: f64 = 1e-6;

#[derive(Debug, Clone, Copy, PartialEq)]
struct F64(f64);

impl Coeff for F64 {
    // The specification-level items of the trait compile to ordinary
    // trait methods that no executable path ever calls; they mirror the
    // executable operations below.
    fn negligible(&self) -> bool {
        self.0.abs() < TOLERANCE
    }

    fn add_spec(self, other: Self) -> Self {
        F64(self.0 + other.0)
    }

    fn mul_spec(self, other: Self) -> Self {
        F64(self.0 * other.0)
    }

    fn neg_spec(self) -> Self {
        F64(-self.0)
    }

    fn div_spec(self, other: Self) -> Self {
        F64(self.0 / other.0)
    }

    fn lt_spec(self, other: Self) -> bool {
        self.0.total_cmp(&other.0) == std::cmp::Ordering::Less
    }

    fn zero_spec() -> Self {
        F64(0.0)
    }

    fn one_spec() -> Self {
        F64(1.0)
    }

    fn neg_significance(_x: Self) {
    }

    fn one_significance() {
    }

    fn zero_significance() {
    }

    fn lt_order(_x: Self, _y: Self, _z: Self) {
    }

    fn is_negligible(&self) -> bool {
        self.0.abs() < TOLERANCE
    }

    fn plus(self, other: Self) -> Self {
        F64(self.0 + other.0)
    }

    fn times(self, other: Self) -> Self {
        F64(self.0 * other.0)
    }

    fn negated(self) -> Self {
        F64(-self.0)
    }

    fn divided_by(self, other: Self) -> Self {
        F64(self.0 / other.0)
    }

    fn less_than(self, other: Self) -> bool {
        self.0.total_cmp(&other.0) == std::cmp::Ordering::Less
    }

    fn zero() -> Self {
        F64(0.0)
    }

    fn one() -> Self {
        F64(1.0)
    }
}

fn var(index: u64) -> StandardVariableKey {
    StandardVariableKey::new(index)
}

/// Builds the dictionary row of one standard constraint `Σ aᵢxᵢ ≤ b`:
/// the expression `b − Σ aᵢxᵢ` over non-slack dictionary variables.
fn std_row(terms: &[(u64, f64)], b: f64) -> LinearExpr<DictionaryVariable, F64> {
    let mut e = LinearExpr::with_constant(F64(b));
    for &(v, c) in terms {
        e.add_term(DictionaryVariable::new_non_slack(var(v)), F64(-c));
    }
    e
}

fn std_objective(terms: &[(u64, f64)], constant: f64) -> LinearExpr<DictionaryVariable, F64> {
    let mut e = LinearExpr::with_constant(F64(constant));
    for &(v, c) in terms {
        e.add_term(DictionaryVariable::new_non_slack(var(v)), F64(c));
    }
    e
}

/// Solves `maximize objective` subject to the given `≤` rows over
/// non-negative standard variables.
fn solve_std(
    rows: Vec<LinearExpr<DictionaryVariable, F64>>,
    objective: LinearExpr<DictionaryVariable, F64>,
) -> SolverSolution<F64> {
    solve_std_with_tolerance(rows, objective, TOLERANCE)
}

fn solve_std_with_tolerance(
    rows: Vec<LinearExpr<DictionaryVariable, F64>>,
    objective: LinearExpr<DictionaryVariable, F64>,
    tolerance: f64,
) -> SolverSolution<F64> {
    let dict = SlackDictionary::from_rows(rows, objective);
    let config = SolverConfig::new(10_000, F64(tolerance));
    let mut solver = SimplexSolver::new(dict, config);
    solver.start()
}

fn assert_approx_eq(actual: f64, expected: f64) {
    assert!(
        (actual - expected).abs() < EPSILON,
        "expected {}, but got {}",
        expected,
        actual
    );
}

fn objective_of(s: &SolverSolution<F64>) -> f64 {
    s.objective_value.expect("objective value missing").0
}

#[test]
fn test_with_terms_sums_before_dropping() {
    // Two sub-tolerance contributions to the same key merge first and
    // survive: 6e-11 + 6e-11 = 1.2e-10 >= 1e-10.
    let x = DictionaryVariable::new_non_slack(var(0));
    let expr: LinearExpr<DictionaryVariable, F64> =
        LinearExpr::with_terms(vec![(x, F64(6e-11)), (x, F64(6e-11))]);
    assert_eq!(expr.num_terms(), 1);
    assert!((expr.coefficient(&x).0 - 1.2e-10).abs() < 1e-25);

    // A single sub-tolerance total is dropped.
    let alone: LinearExpr<DictionaryVariable, F64> =
        LinearExpr::with_terms(vec![(x, F64(6e-11))]);
    assert_eq!(alone.num_terms(), 0);
}

#[test]
fn test_maximization_standard() {
    // max 3x + 4y s.t. x + 2y <= 14, 3x - y <= 0, x - y <= 2
    let rows = vec![
        std_row(&[(0, 1.0), (1, 2.0)], 14.0),
        std_row(&[(0, 3.0), (1, -1.0)], 0.0),
        std_row(&[(0, 1.0), (1, -1.0)], 2.0),
    ];
    let solution = solve_std(rows, std_objective(&[(0, 3.0), (1, 4.0)], 0.0));
    assert!(matches!(solution.status, SolverStatus::Optimal));
    assert_approx_eq(objective_of(&solution), 30.0);
    assert_approx_eq(solution.value(var(0)).0, 2.0);
    assert_approx_eq(solution.value(var(1)).0, 6.0);
}

#[test]
fn test_minimization_standard() {
    // min 2x + 3y s.t. x + y >= 10, x <= 8, y <= 12: maximize the negated
    // objective, and negate the reported optimum back.
    let rows = vec![
        std_row(&[(0, -1.0), (1, -1.0)], -10.0),
        std_row(&[(0, 1.0)], 8.0),
        std_row(&[(1, 1.0)], 12.0),
    ];
    let negate = objective_negated(ObjectiveSense::Minimize);
    assert!(negate);
    let solution = solve_std(rows, std_objective(&[(0, -2.0), (1, -3.0)], 0.0));
    assert!(matches!(solution.status, SolverStatus::Optimal));
    assert_approx_eq(-objective_of(&solution), 22.0);
}

#[test]
fn test_equality_constraint() {
    // max x + y s.t. 2x + y = 10: the equality becomes two opposite rows.
    let rows = vec![
        std_row(&[(0, 2.0), (1, 1.0)], 10.0),
        std_row(&[(0, -2.0), (1, -1.0)], -10.0),
    ];
    let solution = solve_std(rows, std_objective(&[(0, 1.0), (1, 1.0)], 0.0));
    assert!(matches!(solution.status, SolverStatus::Optimal));
    assert_approx_eq(objective_of(&solution), 10.0);
}

#[test]
fn test_infeasible_problem() {
    // x >= 5 and x <= 3
    let rows = vec![std_row(&[(0, -1.0)], -5.0), std_row(&[(0, 1.0)], 3.0)];
    let solution = solve_std(rows, std_objective(&[(0, 1.0)], 0.0));
    assert!(matches!(solution.status, SolverStatus::Infeasible));
    assert!(solution.objective_value.is_none());
}

#[test]
fn test_nonnegative_with_negative_upper_bound_infeasible() {
    // x >= 0 with x <= -5 must be infeasible.
    let rows = vec![std_row(&[(0, 1.0)], -5.0)];
    let solution = solve_std(rows, std_objective(&[(0, 1.0)], 0.0));
    assert!(matches!(solution.status, SolverStatus::Infeasible));
}

#[test]
fn test_phase_one_respects_configured_tolerance() {
    // x >= 0 with x <= -5e-9: under the default tolerance the auxiliary
    // optimum -5e-9 lies outside the band and the problem is infeasible;
    // under a loose 1e-6 tolerance the same residue counts as zero.
    let strict = solve_std_with_tolerance(
        vec![std_row(&[(0, 1.0)], -5e-9)],
        std_objective(&[(0, 1.0)], 0.0),
        TOLERANCE,
    );
    assert!(matches!(strict.status, SolverStatus::Infeasible));

    let loose = solve_std_with_tolerance(
        vec![std_row(&[(0, 1.0)], -5e-9)],
        std_objective(&[(0, 1.0)], 0.0),
        1e-6,
    );
    assert!(!matches!(loose.status, SolverStatus::Infeasible));
}

#[test]
fn test_unbounded_problem() {
    // max x s.t. x >= 5 only
    let rows = vec![std_row(&[(0, -1.0)], -5.0)];
    let solution = solve_std(rows, std_objective(&[(0, 1.0)], 0.0));
    assert!(matches!(solution.status, SolverStatus::Unbounded));
}

#[test]
fn test_no_constraints_unbounded() {
    // max x, x >= 0, no rows at all
    let solution = solve_std(vec![], std_objective(&[(0, 1.0)], 0.0));
    assert!(matches!(solution.status, SolverStatus::Unbounded));
}

#[test]
fn test_no_constraints_optimal() {
    // min x, x >= 0: maximize -x, optimal at zero.
    let solution = solve_std(vec![], std_objective(&[(0, -1.0)], 0.0));
    assert!(matches!(solution.status, SolverStatus::Optimal));
    assert_approx_eq(-objective_of(&solution), 0.0);
}

#[test]
fn test_zero_objective() {
    // max 0*x s.t. x <= 5: the zero coefficient never enters the
    // expression, so the empty objective is immediately optimal.
    let rows = vec![std_row(&[(0, 1.0)], 5.0)];
    let solution = solve_std(rows, std_objective(&[(0, 0.0)], 0.0));
    assert!(matches!(solution.status, SolverStatus::Optimal));
    assert_approx_eq(objective_of(&solution), 0.0);
}

#[test]
fn test_redundant_constraints() {
    let rows = vec![std_row(&[(0, 1.0)], 10.0), std_row(&[(0, 1.0)], 100.0)];
    let solution = solve_std(rows, std_objective(&[(0, 1.0)], 0.0));
    assert!(matches!(solution.status, SolverStatus::Optimal));
    assert_approx_eq(objective_of(&solution), 10.0);
}

#[test]
fn test_binary_relaxation_half() {
    // A binary variable relaxes to 0 <= b <= 1; with b <= 0.5 on top,
    // max b attains exactly 0.5.
    let rows = vec![std_row(&[(0, 1.0)], 1.0), std_row(&[(0, 1.0)], 0.5)];
    let solution = solve_std(rows, std_objective(&[(0, 1.0)], 0.0));
    assert!(matches!(solution.status, SolverStatus::Optimal));
    assert_approx_eq(objective_of(&solution), 0.5);
    assert_approx_eq(solution.value(var(0)).0, 0.5);
}

#[test]
fn test_boxed_variables() {
    // max x with x in [2, 5]: x = s + 2, s <= 3.
    let rows = vec![std_row(&[(0, 1.0)], 3.0)];
    let solution = solve_std(rows, std_objective(&[(0, 1.0)], 2.0));
    assert!(matches!(solution.status, SolverStatus::Optimal));
    assert_approx_eq(objective_of(&solution), 5.0);
}

#[test]
fn test_negative_variables() {
    // min x with x >= -5, x <= 10: x = s - 5, s >= 0, s <= 15;
    // maximize -(s - 5), optimum 5, reported -5.
    let rows = vec![std_row(&[(0, 1.0)], 15.0)];
    let solution = solve_std(rows, std_objective(&[(0, -1.0)], 5.0));
    assert!(matches!(solution.status, SolverStatus::Optimal));
    assert_approx_eq(-objective_of(&solution), -5.0);
}

#[test]
fn test_fractional_coefficients() {
    // max x + y s.t. 3x + y <= 1
    let rows = vec![std_row(&[(0, 3.0), (1, 1.0)], 1.0)];
    let solution = solve_std(rows, std_objective(&[(0, 1.0), (1, 1.0)], 0.0));
    assert!(matches!(solution.status, SolverStatus::Optimal));
    assert_approx_eq(objective_of(&solution), 1.0);
}

#[test]
fn test_unused_variable_in_objective() {
    // max x s.t. x + y <= 10; y never appears in the objective.
    let rows = vec![std_row(&[(0, 1.0), (1, 1.0)], 10.0)];
    let solution = solve_std(rows, std_objective(&[(0, 1.0)], 0.0));
    assert!(matches!(solution.status, SolverStatus::Optimal));
    assert_approx_eq(objective_of(&solution), 10.0);
}

#[test]
fn test_numerical_stability() {
    // max 1e6*x + 1e-6*y s.t. x <= 1, y <= 1e6
    let rows = vec![std_row(&[(0, 1.0)], 1.0), std_row(&[(1, 1.0)], 1_000_000.0)];
    let solution = solve_std(
        rows,
        std_objective(&[(0, 1_000_000.0), (1, 0.000_001)], 0.0),
    );
    assert!(matches!(solution.status, SolverStatus::Optimal));
    assert_approx_eq(objective_of(&solution), 1_000_001.0);
}

#[test]
fn test_complex_degeneracy_case() {
    // min x0+..+x5 s.t. x4+x5=3, x1+x5=5, x2+x3+x4=4, x0+x1+x3=7.
    let eqs: [(&[(u64, f64)], f64); 4] = [
        (&[(4, 1.0), (5, 1.0)], 3.0),
        (&[(1, 1.0), (5, 1.0)], 5.0),
        (&[(2, 1.0), (3, 1.0), (4, 1.0)], 4.0),
        (&[(0, 1.0), (1, 1.0), (3, 1.0)], 7.0),
    ];
    let mut rows = Vec::new();
    for (terms, b) in eqs {
        rows.push(std_row(terms, b));
        let negated: Vec<(u64, f64)> = terms.iter().map(|&(v, c)| (v, -c)).collect();
        rows.push(std_row(&negated, -b));
    }
    let objective = std_objective(
        &[
            (0, -1.0),
            (1, -1.0),
            (2, -1.0),
            (3, -1.0),
            (4, -1.0),
            (5, -1.0),
        ],
        0.0,
    );
    let solution = solve_std(rows, objective);
    assert!(matches!(solution.status, SolverStatus::Optimal));
    assert_approx_eq(-objective_of(&solution), 10.0);
}

#[test]
fn test_klee_minty_3d() {
    // max 100x1 + 10x2 + x3, the worst-case pivot path cube.
    let rows = vec![
        std_row(&[(0, 1.0)], 1.0),
        std_row(&[(0, 20.0), (1, 1.0)], 100.0),
        std_row(&[(0, 200.0), (1, 20.0), (2, 1.0)], 10_000.0),
    ];
    let solution = solve_std(rows, std_objective(&[(0, 100.0), (1, 10.0), (2, 1.0)], 0.0));
    assert!(matches!(solution.status, SolverStatus::Optimal));
    assert_approx_eq(objective_of(&solution), 10_000.0);
}

#[test]
fn test_beale_cycling() {
    // Beale's cycling example; termination is the point, guarded by the
    // iteration budget.
    let rows = vec![
        std_row(&[(0, 0.25), (1, -60.0), (2, -0.04), (3, 9.0)], 0.0),
        std_row(&[(0, 0.50), (1, -90.0), (2, -0.02), (3, 3.0)], 0.0),
        std_row(&[(2, 1.0)], 1.0),
    ];
    let objective = std_objective(&[(0, 0.75), (1, -150.0), (2, 0.02), (3, -6.0)], 0.0);
    let solution = solve_std(rows, objective);
    assert!(matches!(
        solution.status,
        SolverStatus::Optimal | SolverStatus::MaxIterationsReached
    ));
}

#[test]
fn test_epsilon_perturbation() {
    // max x + y s.t. 1e-9 x + y <= 1: the tiny coefficient must not be
    // treated as zero; x ends up near 1e9.
    let rows = vec![std_row(&[(0, 1e-9), (1, 1.0)], 1.0)];
    let solution = solve_std(rows, std_objective(&[(0, 1.0), (1, 1.0)], 0.0));
    assert!(matches!(solution.status, SolverStatus::Optimal));
    assert!(solution.value(var(0)).0 > 1_000_000.0);
}

#[test]
fn test_incremental_solving() {
    // Solve, then solve again with a tighter constraint added.
    let rows = vec![std_row(&[(0, 1.0)], 10.0)];
    let solution1 = solve_std(rows, std_objective(&[(0, 1.0)], 0.0));
    assert_approx_eq(objective_of(&solution1), 10.0);

    let rows2 = vec![std_row(&[(0, 1.0)], 10.0), std_row(&[(0, 1.0)], 5.0)];
    let solution2 = solve_std(rows2, std_objective(&[(0, 1.0)], 0.0));
    assert_approx_eq(objective_of(&solution2), 5.0);
}

#[test]
fn test_scale_hypercube_50_vars() {
    let n: u64 = 50;
    let mut rows = Vec::new();
    let mut objective_terms = Vec::new();
    for i in 0..n {
        rows.push(std_row(&[(i, 1.0)], 1.0));
        objective_terms.push((i, 1.0));
    }
    let solution = solve_std(rows, std_objective(&objective_terms, 0.0));
    assert!(matches!(solution.status, SolverStatus::Optimal));
    assert_approx_eq(objective_of(&solution), 50.0);
}

#[test]
fn test_scale_hypercube_100_vars() {
    let n: u64 = 100;
    let mut rows = Vec::new();
    let mut objective_terms = Vec::new();
    for i in 0..n {
        rows.push(std_row(&[(i, 1.0)], 1.0));
        objective_terms.push((i, 1.0));
    }
    let solution = solve_std(rows, std_objective(&objective_terms, 0.0));
    assert!(matches!(solution.status, SolverStatus::Optimal));
    assert_approx_eq(objective_of(&solution), 100.0);
}
