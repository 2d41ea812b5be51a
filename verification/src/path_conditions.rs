//! Path conditions that a branch on `is_empty` establishes.
use vstd::prelude::*;
use crate::ir::{PathCondition, ResourcePath};

verus! {

/// The conditions of the two branches of `receiver.is_empty()`: empty on
/// the true branch, non-empty on the false branch.
pub fn branch_conditions_from_is_empty(receiver: &ResourcePath) -> (r: (PathCondition, PathCondition))
    ensures
        r.0.same_as(PathCondition::LenEqZero(*receiver)),
        r.1.same_as(PathCondition::LenGtZero(*receiver)),
{
    (PathCondition::LenEqZero(receiver.copy()), PathCondition::LenGtZero(receiver.copy()))
}

} // verus!
