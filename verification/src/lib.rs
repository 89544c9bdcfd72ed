//! A linear programming solver core: sparse linear expressions over generic
//! variable keys and coefficients, standardization rules, and the decision
//! logic of a two-phase dictionary simplex method.
//!
//! Numeric work is supplied by the caller through the [`expression::Coeff`]
//! trait; everything here is verified for the structural guarantees the
//! solver relies on.

pub mod dict_variable;
pub mod dictionary;
pub mod driver;
pub mod error;
pub mod expression;
pub mod keys;
pub mod numeric;
pub mod solver;
pub mod standardize;
pub mod status;

pub use dict_variable::DictionaryVariable;
pub use dictionary::SlackDictionary;
pub use driver::{PhaseOneOutcome, StepDecision};
pub use error::SolverError;
pub use expression::{Coeff, ExprVariable, KeyCmp, LinearExpr};
pub use keys::{StandardVariableKey, VariableKey};
pub use numeric::IntCoeff;
pub use solver::{SimplexSolver, SolverConfig, SolverSolution};
pub use standardize::{ConstraintSense, MappingPlan, ObjectiveSense, VariableMapping, VariableType};
pub use status::SolverStatus;
