use vstd::prelude::*;

verus! {

/// Terminal outcome of a solve, reported on the solution rather than as an
/// error: reaching optimality, certifying infeasibility or unboundedness,
/// or giving up at the iteration cap. `NotSolved` is the state before any
/// solve has run.
#[derive(Debug, Clone, Copy, PartialEq, Eq, Structural)]
pub enum SolverStatus {
    Optimal,
    Infeasible,
    Unbounded,
    NotSolved,
    MaxIterationsReached,
}

impl SolverStatus {
    pub fn is_optimal(&self) -> (r: bool)
        ensures
            r == (self is Optimal),
    {
        matches!(self, SolverStatus::Optimal)
    }

    pub fn description(&self) -> (r: &'static str)
        ensures
            self is Optimal ==> r@ == "Optimal solution found"@,
            self is Infeasible ==> r@ == "Problem is infeasible"@,
            self is Unbounded ==> r@ == "Problem is unbounded"@,
            self is NotSolved ==> r@ == "Problem has not been solved"@,
            self is MaxIterationsReached ==> r@ == "Maximum iterations reached"@,
    {
        match self {
            SolverStatus::Optimal => "Optimal solution found",
            SolverStatus::Infeasible => "Problem is infeasible",
            SolverStatus::Unbounded => "Problem is unbounded",
            SolverStatus::NotSolved => "Problem has not been solved",
            SolverStatus::MaxIterationsReached => "Maximum iterations reached",
        }
    }
}

} // verus!
