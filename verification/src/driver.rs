use vstd::prelude::*;
use crate::status::SolverStatus;

verus! {

/// What one iteration of the simplex loop does next.
#[derive(Debug, Clone, Copy, PartialEq, Eq, Structural)]
pub enum StepDecision {
    /// Stop with this terminal status.
    Finished(SolverStatus),
    /// Pivot the chosen entering variable against the chosen leaving row.
    Pivot,
}

/// What happens at the end of Phase 1.
#[derive(Debug, Clone, Copy, PartialEq, Eq, Structural)]
pub enum PhaseOneOutcome {
    /// The auxiliary objective reached zero: the dictionary is feasible
    /// and Phase 2 starts from it.
    ProceedToPhaseTwo,
    /// The auxiliary optimum stays away from zero: the problem has no
    /// feasible point at all.
    Infeasible,
}

/// The decision at the head of each simplex iteration, for either phase.
///
/// The iteration budget is checked first; then a missing entering
/// candidate (no objective coefficient above the tolerance) means the
/// current dictionary is optimal; then a missing leaving row (no row where
/// the entering variable's coefficient is below the negated tolerance)
/// means the objective is unbounded; otherwise the iteration pivots.
pub fn step_decision(
    iterations: u32,
    max_iterations: u32,
    has_entering: bool,
    has_leaving: bool,
) -> (r: StepDecision)
    ensures
        iterations >= max_iterations ==> r == StepDecision::Finished(
            SolverStatus::MaxIterationsReached,
        ),
        iterations < max_iterations && !has_entering ==> r == StepDecision::Finished(
            SolverStatus::Optimal,
        ),
        iterations < max_iterations && has_entering && !has_leaving ==> r == StepDecision::Finished(
            SolverStatus::Unbounded,
        ),
        iterations < max_iterations && has_entering && has_leaving ==> r == StepDecision::Pivot,
{
    if iterations >= max_iterations {
        StepDecision::Finished(SolverStatus::MaxIterationsReached)
    } else if !has_entering {
        StepDecision::Finished(SolverStatus::Optimal)
    } else if !has_leaving {
        StepDecision::Finished(SolverStatus::Unbounded)
    } else {
        StepDecision::Pivot
    }
}

/// The verdict after Phase 1 has optimized the auxiliary objective: the
/// problem is feasible exactly when that optimum lies within the
/// configured tolerance of zero.
pub fn phase_one_outcome(aux_objective_within_tolerance: bool) -> (r: PhaseOneOutcome)
    ensures
        r == PhaseOneOutcome::ProceedToPhaseTwo <==> aux_objective_within_tolerance,
        r == PhaseOneOutcome::Infeasible <==> !aux_objective_within_tolerance,
{
    if aux_objective_within_tolerance {
        PhaseOneOutcome::ProceedToPhaseTwo
    } else {
        PhaseOneOutcome::Infeasible
    }
}

} // verus!
