use vstd::prelude::*;
use crate::expression::{ExprVariable, KeyCmp};

verus! {

/// Handle of a model variable: a stable identifier, assigned in creation
/// order, that keys expression terms and the solution map.
#[derive(Debug, Clone, Copy, PartialEq, Eq, Hash, Structural)]
pub struct VariableKey {
    pub index: u64,
}

impl VariableKey {
    pub fn new(index: u64) -> (r: Self)
        ensures
            r.index == index,
    {
        VariableKey { index }
    }
}

impl ExprVariable for VariableKey {
    open spec fn key_id(&self) -> int {
        self.index as int
    }

    fn key_cmp(&self, other: &Self) -> (c: KeyCmp) {
        if self.index < other.index {
            KeyCmp::Lt
        } else if self.index == other.index {
            KeyCmp::Eq
        } else {
            KeyCmp::Gt
        }
    }
}

/// Handle of a standard-form variable: a variable that is implicitly
/// non-negative. Identity is the index, assigned in creation order by
/// whoever builds the standard model.
#[derive(Debug, Clone, Copy, PartialEq, Eq, Hash, Structural)]
pub struct StandardVariableKey {
    pub index: u64,
}

impl StandardVariableKey {
    pub fn new(index: u64) -> (r: Self)
        ensures
            r.index == index,
    {
        StandardVariableKey { index }
    }
}

impl ExprVariable for StandardVariableKey {
    open spec fn key_id(&self) -> int {
        self.index as int
    }

    fn key_cmp(&self, other: &Self) -> (c: KeyCmp) {
        if self.index < other.index {
            KeyCmp::Lt
        } else if self.index == other.index {
            KeyCmp::Eq
        } else {
            KeyCmp::Gt
        }
    }
}

} // verus!
