//! Statuses, errors, model validation, the variable translation table,
//! the step decisions, and the integer scalar.

use rustplex::dict_variable::DictionaryVariable;
use rustplex::driver::{phase_one_outcome, step_decision, PhaseOneOutcome, StepDecision};
use rustplex::error::{validate_model, SolverError};
use rustplex::expression::{Coeff, KeyCmp, ExprVariable};
use rustplex::keys::StandardVariableKey;
use rustplex::numeric::IntCoeff;
use rustplex::expression::LinearExpr;
use rustplex::keys::VariableKey;
use rustplex::dictionary::SlackDictionary;
use rustplex::standardize::{
    bound_row, bound_row_amount, constraint_dictionary_rows, emits_negated_row, emits_plain_row,
    objective_dictionary_expr, objective_negated, reported_objective, shift_amount,
    substitute_mappings, variable_mapping_plan, ConstraintSense, LowerBound, MappingPlan,
    ObjectiveSense, ShiftRule, UpperBound, UpperRowRule, VariableMapping, VariableType,
};
use rustplex::status::SolverStatus;

#[test]
fn test_status_is_optimal() {
    assert!(SolverStatus::Optimal.is_optimal());
    assert!(!SolverStatus::Infeasible.is_optimal());
    assert!(!SolverStatus::Unbounded.is_optimal());
    assert!(!SolverStatus::NotSolved.is_optimal());
    assert!(!SolverStatus::MaxIterationsReached.is_optimal());
}

#[test]
fn test_status_description() {
    assert_eq!(SolverStatus::Optimal.description(), "Optimal solution found");
    assert_eq!(SolverStatus::Infeasible.description(), "Problem is infeasible");
    assert_eq!(SolverStatus::Unbounded.description(), "Problem is unbounded");
    assert_eq!(
        SolverStatus::NotSolved.description(),
        "Problem has not been solved"
    );
    assert_eq!(
        SolverStatus::MaxIterationsReached.description(),
        "Maximum iterations reached"
    );
}

#[test]
fn test_error_messages() {
    assert_eq!(
        SolverError::NonLinearNotSupported.message(),
        "Non-linear programming is not supported yet."
    );
    assert_eq!(SolverError::NoVariables.message(), "Model has no variables.");
    assert_eq!(
        SolverError::ObjectiveMissing.message(),
        "Objective function must be set before solving."
    );
}

#[test]
fn test_integer_not_supported_error() {
    // A model with an integer variable is rejected outright.
    let result = validate_model(1, true, true);
    assert!(matches!(result, Err(SolverError::NonLinearNotSupported)));
}

#[test]
fn test_validate_model_order_of_errors() {
    assert!(matches!(validate_model(0, false, true), Err(SolverError::NoVariables)));
    assert!(matches!(
        validate_model(3, false, true),
        Err(SolverError::ObjectiveMissing)
    ));
    assert!(matches!(
        validate_model(3, true, true),
        Err(SolverError::NonLinearNotSupported)
    ));
    assert!(validate_model(3, true, false).is_ok());
}

#[test]
fn test_mapping_plan_table() {
    let cont = VariableType::Continuous;

    // Binary: non-negative with an upper bound row of one.
    assert_eq!(
        variable_mapping_plan(VariableType::Binary, LowerBound::Zero, UpperBound::FiniteNonzero),
        MappingPlan::Positive { shift: ShiftRule::NoShift, row: UpperRowRule::RowOne }
    );
    // Non-negative, finite upper bound.
    assert_eq!(
        variable_mapping_plan(cont, LowerBound::Zero, UpperBound::FiniteNonzero),
        MappingPlan::Positive { shift: ShiftRule::NoShift, row: UpperRowRule::RowUpperBound }
    );
    // Non-negative, unbounded above.
    assert_eq!(
        variable_mapping_plan(cont, LowerBound::Zero, UpperBound::Unbounded),
        MappingPlan::Positive { shift: ShiftRule::NoShift, row: UpperRowRule::NoRow }
    );
    // Non-positive: shifted by the lower bound, bounded by its negation.
    assert_eq!(
        variable_mapping_plan(cont, LowerBound::FiniteNonzero, UpperBound::Zero),
        MappingPlan::Positive {
            shift: ShiftRule::ByLowerBound,
            row: UpperRowRule::RowNegatedLowerBound,
        }
    );
    // Free: split in two parts.
    assert_eq!(variable_mapping_plan(cont, LowerBound::Unbounded, UpperBound::Unbounded), MappingPlan::Split);
    // Unbounded below, finite above: mirrored.
    assert_eq!(variable_mapping_plan(cont, LowerBound::Unbounded, UpperBound::FiniteNonzero), MappingPlan::Negative);
    assert_eq!(variable_mapping_plan(cont, LowerBound::Unbounded, UpperBound::Zero), MappingPlan::Negative);
    // Finite below, unbounded above: shifted.
    assert_eq!(
        variable_mapping_plan(cont, LowerBound::FiniteNonzero, UpperBound::Unbounded),
        MappingPlan::Positive { shift: ShiftRule::ByLowerBound, row: UpperRowRule::NoRow }
    );
    // Doubly bounded: shifted and bounded by the width.
    assert_eq!(
        variable_mapping_plan(cont, LowerBound::FiniteNonzero, UpperBound::FiniteNonzero),
        MappingPlan::Positive {
            shift: ShiftRule::ByLowerBound,
            row: UpperRowRule::RowUpperMinusLower,
        }
    );
}

#[test]
fn test_constraint_row_emission() {
    assert!(emits_plain_row(ConstraintSense::LessEqual));
    assert!(!emits_negated_row(ConstraintSense::LessEqual));
    assert!(!emits_plain_row(ConstraintSense::GreaterEqual));
    assert!(emits_negated_row(ConstraintSense::GreaterEqual));
    assert!(emits_plain_row(ConstraintSense::Equal));
    assert!(emits_negated_row(ConstraintSense::Equal));
}

#[test]
fn test_objective_negation() {
    assert!(objective_negated(ObjectiveSense::Minimize));
    assert!(!objective_negated(ObjectiveSense::Maximize));
}

#[test]
fn test_step_decision() {
    assert_eq!(
        step_decision(7, 7, true, true),
        StepDecision::Finished(SolverStatus::MaxIterationsReached)
    );
    assert_eq!(
        step_decision(0, 7, false, false),
        StepDecision::Finished(SolverStatus::Optimal)
    );
    assert_eq!(
        step_decision(0, 7, true, false),
        StepDecision::Finished(SolverStatus::Unbounded)
    );
    assert_eq!(step_decision(0, 7, true, true), StepDecision::Pivot);
}

#[test]
fn test_phase_one_outcome() {
    assert_eq!(phase_one_outcome(true), PhaseOneOutcome::ProceedToPhaseTwo);
    assert_eq!(phase_one_outcome(false), PhaseOneOutcome::Infeasible);
}

#[test]
fn test_dictionary_variable_kinds() {
    let key = StandardVariableKey::new(3);
    assert_eq!(
        DictionaryVariable::new_non_slack(key),
        DictionaryVariable::NonSlack(key)
    );
    assert_eq!(DictionaryVariable::new_slack(2), DictionaryVariable::Slack(2));
    assert_eq!(DictionaryVariable::new_auxiliary(), DictionaryVariable::Auxiliary);

    // Structural and auxiliary variables outrank slacks for tie-breaking.
    assert_eq!(DictionaryVariable::new_non_slack(key).kind_rank(), 1);
    assert_eq!(DictionaryVariable::new_auxiliary().kind_rank(), 1);
    assert_eq!(DictionaryVariable::new_slack(0).kind_rank(), 0);
}

#[test]
fn test_dictionary_variable_order() {
    let aux = DictionaryVariable::new_auxiliary();
    let ns0 = DictionaryVariable::new_non_slack(StandardVariableKey::new(0));
    let ns1 = DictionaryVariable::new_non_slack(StandardVariableKey::new(1));
    let s0 = DictionaryVariable::new_slack(0);

    assert_eq!(aux.key_cmp(&ns0), KeyCmp::Lt);
    assert_eq!(ns0.key_cmp(&s0), KeyCmp::Lt);
    assert_eq!(s0.key_cmp(&ns1), KeyCmp::Lt);
    assert_eq!(ns1.key_cmp(&ns1), KeyCmp::Eq);
    assert_eq!(s0.key_cmp(&aux), KeyCmp::Gt);
}

#[test]
fn test_substitute_mappings() {
    // 2a + 3b - 4c + 7 with a = s0 + 5, b = -s1 + 2, c = s2 - s3:
    // becomes 2 s0 + 3 (-s1) - 4 s2 + 4 s3 + (7 + 2*5 + 3*2) = ... + 23.
    let a = VariableKey::new(0);
    let b = VariableKey::new(1);
    let c = VariableKey::new(2);
    let expr = LinearExpr::with_terms_and_constant(
        vec![
            (a, IntCoeff::new(2)),
            (b, IntCoeff::new(3)),
            (c, IntCoeff::new(-4)),
        ],
        IntCoeff::new(7),
    );
    let mappings = vec![
        VariableMapping::Positive { var: StandardVariableKey::new(0), shift: IntCoeff::new(5) },
        VariableMapping::Negative { var: StandardVariableKey::new(1), shift: IntCoeff::new(2) },
        VariableMapping::Split {
            pos: StandardVariableKey::new(2),
            neg: StandardVariableKey::new(3),
        },
    ];

    let out = substitute_mappings(&expr, &mappings);

    assert_eq!(out.coefficient(&StandardVariableKey::new(0)), IntCoeff::new(2));
    assert_eq!(out.coefficient(&StandardVariableKey::new(1)), IntCoeff::new(-3));
    assert_eq!(out.coefficient(&StandardVariableKey::new(2)), IntCoeff::new(-4));
    assert_eq!(out.coefficient(&StandardVariableKey::new(3)), IntCoeff::new(4));
    assert_eq!(out.get_constant(), IntCoeff::new(23));
}

#[test]
fn test_translation_amounts() {
    let lb = IntCoeff::new(-4);
    let ub = IntCoeff::new(9);
    assert_eq!(shift_amount(ShiftRule::NoShift, lb), IntCoeff::new(0));
    assert_eq!(shift_amount(ShiftRule::ByLowerBound, lb), lb);
    assert_eq!(bound_row_amount(UpperRowRule::NoRow, lb, ub), None);
    assert_eq!(bound_row_amount(UpperRowRule::RowOne, lb, ub), Some(IntCoeff::new(1)));
    assert_eq!(bound_row_amount(UpperRowRule::RowUpperBound, lb, ub), Some(ub));
    assert_eq!(
        bound_row_amount(UpperRowRule::RowNegatedLowerBound, lb, ub),
        Some(IntCoeff::new(4))
    );
    assert_eq!(
        bound_row_amount(UpperRowRule::RowUpperMinusLower, lb, ub),
        Some(IntCoeff::new(13))
    );
}

#[test]
fn test_bound_row() {
    let s = StandardVariableKey::new(2);
    let row = bound_row(s, IntCoeff::new(7));
    assert_eq!(row.get_constant(), IntCoeff::new(7));
    assert_eq!(row.num_terms(), 1);
    assert_eq!(
        row.term_at(0),
        (DictionaryVariable::new_non_slack(s), IntCoeff::new(-1))
    );
}

#[test]
fn test_constraint_dictionary_rows() {
    // Substituted difference 2 s0 - 3 s1 + constant -5, so b = 5.
    let e = LinearExpr::with_terms_and_constant(
        vec![
            (StandardVariableKey::new(0), IntCoeff::new(2)),
            (StandardVariableKey::new(1), IntCoeff::new(-3)),
        ],
        IntCoeff::new(-5),
    );
    let d0 = DictionaryVariable::new_non_slack(StandardVariableKey::new(0));
    let d1 = DictionaryVariable::new_non_slack(StandardVariableKey::new(1));

    // <=: one row, b - e.
    let le = constraint_dictionary_rows(&e, ConstraintSense::LessEqual);
    assert_eq!(le.len(), 1);
    assert_eq!(le[0].get_constant(), IntCoeff::new(5));
    assert_eq!(le[0].coefficient(&d0), IntCoeff::new(-2));
    assert_eq!(le[0].coefficient(&d1), IntCoeff::new(3));

    // >=: one row, -b + e.
    let ge = constraint_dictionary_rows(&e, ConstraintSense::GreaterEqual);
    assert_eq!(ge.len(), 1);
    assert_eq!(ge[0].get_constant(), IntCoeff::new(-5));
    assert_eq!(ge[0].coefficient(&d0), IntCoeff::new(2));
    assert_eq!(ge[0].coefficient(&d1), IntCoeff::new(-3));

    // =: both rows.
    let eq = constraint_dictionary_rows(&e, ConstraintSense::Equal);
    assert_eq!(eq.len(), 2);
    assert_eq!(eq[0].get_constant(), IntCoeff::new(5));
    assert_eq!(eq[1].get_constant(), IntCoeff::new(-5));
}

#[test]
fn test_objective_dictionary_expr() {
    let e = LinearExpr::with_terms_and_constant(
        vec![(StandardVariableKey::new(0), IntCoeff::new(4))],
        IntCoeff::new(6),
    );
    let lifted = objective_dictionary_expr(&e);
    assert_eq!(lifted.get_constant(), IntCoeff::new(6));
    assert_eq!(
        lifted.coefficient(&DictionaryVariable::new_non_slack(StandardVariableKey::new(0))),
        IntCoeff::new(4)
    );
    // The lifted rows and objective feed the dictionary directly.
    let dict = SlackDictionary::from_rows(
        constraint_dictionary_rows(&e, ConstraintSense::LessEqual),
        lifted,
    );
    assert_eq!(dict.num_rows(), 1);
    assert_eq!(dict.row_constant(0), IntCoeff::new(-6));
}

#[test]
fn test_reported_objective() {
    assert_eq!(
        reported_objective(IntCoeff::new(9), ObjectiveSense::Minimize),
        IntCoeff::new(-9)
    );
    assert_eq!(
        reported_objective(IntCoeff::new(9), ObjectiveSense::Maximize),
        IntCoeff::new(9)
    );
}

#[test]
fn test_int_coeff_arithmetic() {
    let a = IntCoeff::new(6);
    let b = IntCoeff::new(-2);
    assert_eq!(a.plus(b), IntCoeff::new(4));
    assert_eq!(a.times(b), IntCoeff::new(-12));
    assert_eq!(a.negated(), IntCoeff::new(-6));
    assert_eq!(a.divided_by(b), IntCoeff::new(-3));
    assert!(b.less_than(a));
    assert!(!a.less_than(b));
    assert!(IntCoeff::new(0).is_negligible());
    assert!(!b.is_negligible());
    assert_eq!(IntCoeff::zero(), IntCoeff::new(0));
    assert_eq!(IntCoeff::one(), IntCoeff::new(1));
}

#[test]
fn test_int_coeff_saturates() {
    let big = IntCoeff::new(i64::MAX);
    assert_eq!(big.plus(IntCoeff::new(1)), IntCoeff::new(i64::MAX));
    assert_eq!(big.times(IntCoeff::new(2)), IntCoeff::new(i64::MAX));
    assert_eq!(IntCoeff::new(i64::MIN).negated(), IntCoeff::new(i64::MAX));
    assert_eq!(
        IntCoeff::new(i64::MIN).times(IntCoeff::new(2)),
        IntCoeff::new(i64::MIN)
    );
    // Division truncates toward zero.
    assert_eq!(IntCoeff::new(-7).divided_by(IntCoeff::new(2)), IntCoeff::new(-3));
}
