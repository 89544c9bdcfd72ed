use vstd::prelude::*;

verus! {

/// Why a model is rejected before any solving starts.
#[derive(Debug, Clone, Copy, PartialEq, Eq, Structural)]
pub enum SolverError {
    /// The model contains an integer variable; only pure linear programs
    /// are solved. Binary variables are admitted as their `[0, 1]`
    /// relaxation and do not raise this error.
    NonLinearNotSupported,
    /// The model has no variables at all.
    NoVariables,
    /// No objective was ever set on the model.
    ObjectiveMissing,
}

impl SolverError {
    pub fn message(&self) -> (r: &'static str)
        ensures
            self is NonLinearNotSupported ==> r@ == "Non-linear programming is not supported yet."@,
            self is NoVariables ==> r@ == "Model has no variables."@,
            self is ObjectiveMissing ==> r@ == "Objective function must be set before solving."@,
    {
        match self {
            SolverError::NonLinearNotSupported => "Non-linear programming is not supported yet.",
            SolverError::NoVariables => "Model has no variables.",
            SolverError::ObjectiveMissing => "Objective function must be set before solving.",
        }
    }
}

/// Admission check run at the start of a solve: a model is solved exactly
/// when it has at least one variable, an objective, and no integer
/// variable. The checks are made in that order, so the error reported for
/// a model failing several of them is the first that applies.
pub fn validate_model(variable_count: usize, has_objective: bool, has_integer_variable: bool) -> (r:
    Result<(), SolverError>)
    ensures
        r is Ok <==> (variable_count > 0 && has_objective && !has_integer_variable),
        variable_count == 0 ==> r == Result::<(), SolverError>::Err(SolverError::NoVariables),
        variable_count > 0 && !has_objective ==> r == Result::<(), SolverError>::Err(
            SolverError::ObjectiveMissing,
        ),
        variable_count > 0 && has_objective && has_integer_variable ==> r == Result::<
            (),
            SolverError,
        >::Err(SolverError::NonLinearNotSupported),
{
    if variable_count == 0 {
        Err(SolverError::NoVariables)
    } else if !has_objective {
        Err(SolverError::ObjectiveMissing)
    } else if has_integer_variable {
        Err(SolverError::NonLinearNotSupported)
    } else {
        Ok(())
    }
}

} // verus!
