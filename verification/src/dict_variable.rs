use vstd::prelude::*;
use crate::expression::{ExprVariable, KeyCmp};
use crate::keys::StandardVariableKey;

verus! {

/// A variable of the slack dictionary: a standard-form variable, the slack
/// variable of a row, or the single auxiliary variable alive during
/// Phase 1.
///
/// The total order places the auxiliary variable first, then every
/// non-slack variable in key order, then every slack variable in row
/// order.
#[derive(Debug, Clone, Copy, PartialEq, Eq, Hash, Structural)]
pub enum DictionaryVariable {
    NonSlack(StandardVariableKey),
    Slack(usize),
    Auxiliary,
}

impl DictionaryVariable {
    pub fn new_non_slack(var: StandardVariableKey) -> (r: Self)
        ensures
            r == DictionaryVariable::NonSlack(var),
    {
        DictionaryVariable::NonSlack(var)
    }

    pub fn new_slack(index: usize) -> (r: Self)
        ensures
            r == DictionaryVariable::Slack(index),
    {
        DictionaryVariable::Slack(index)
    }

    pub fn new_auxiliary() -> (r: Self)
        ensures
            r == DictionaryVariable::Auxiliary,
    {
        DictionaryVariable::Auxiliary
    }

    /// The rank a variable's kind contributes to tie-breaking:
    /// structural (non-slack) and auxiliary variables rank above slacks.
    pub open spec fn rank_spec(self) -> int {
        match self {
            DictionaryVariable::Slack(_) => 0,
            DictionaryVariable::NonSlack(_) => 1,
            DictionaryVariable::Auxiliary => 1,
        }
    }

    /// Rank used to break ties between pivot candidates: structural
    /// (non-slack) and auxiliary variables rank above slack variables, so
    /// that the solver prefers them when coefficients or ratios tie.
    pub fn kind_rank(&self) -> (r: u32)
        ensures
            r == self.rank_spec(),
    {
        match self {
            DictionaryVariable::Slack(_) => 0,
            DictionaryVariable::NonSlack(_) => 1,
            DictionaryVariable::Auxiliary => 1,
        }
    }
}

impl ExprVariable for DictionaryVariable {
    open spec fn key_id(&self) -> int {
        match *self {
            DictionaryVariable::Auxiliary => 0,
            DictionaryVariable::NonSlack(k) => 1 + 2 * (k.index as int),
            DictionaryVariable::Slack(i) => 2 + 2 * (i as int),
        }
    }

    fn key_cmp(&self, other: &Self) -> (c: KeyCmp) {
        match (self, other) {
            (DictionaryVariable::Auxiliary, DictionaryVariable::Auxiliary) => KeyCmp::Eq,
            (DictionaryVariable::Auxiliary, _) => KeyCmp::Lt,
            (_, DictionaryVariable::Auxiliary) => KeyCmp::Gt,
            (DictionaryVariable::NonSlack(a), DictionaryVariable::NonSlack(b)) => {
                if a.index < b.index {
                    KeyCmp::Lt
                } else if a.index == b.index {
                    KeyCmp::Eq
                } else {
                    KeyCmp::Gt
                }
            },
            (DictionaryVariable::NonSlack(a), DictionaryVariable::Slack(j)) => {
                if (a.index as u128) * 2 + 1 < (*j as u128) * 2 + 2 {
                    KeyCmp::Lt
                } else {
                    KeyCmp::Gt
                }
            },
            (DictionaryVariable::Slack(i), DictionaryVariable::NonSlack(b)) => {
                if (*i as u128) * 2 + 2 < (b.index as u128) * 2 + 1 {
                    KeyCmp::Lt
                } else {
                    KeyCmp::Gt
                }
            },
            (DictionaryVariable::Slack(i), DictionaryVariable::Slack(j)) => {
                if i < j {
                    KeyCmp::Lt
                } else if i == j {
                    KeyCmp::Eq
                } else {
                    KeyCmp::Gt
                }
            },
        }
    }
}

} // verus!
