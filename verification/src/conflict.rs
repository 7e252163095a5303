//! The two comparisons that decide a three-way merge.
use vstd::prelude::*;
use crate::json::{same_json, JsonTree, JsonValue};

verus! {

/// Both sides moved away from base, and not to the same value.
pub open spec fn spec_is_conflict(base: JsonTree, mine: JsonTree, theirs: JsonTree) -> bool {
    !same_json(mine, base) && !same_json(theirs, base) && !same_json(mine, theirs)
}

/// Returns true if both sides changed from base to different values (true conflict).
pub fn is_conflict(base: &JsonValue, mine: &JsonValue, theirs: &JsonValue) -> (r: bool)
    ensures
        r == spec_is_conflict(base@, mine@, theirs@),
{
    mine != base && theirs != base && mine != theirs
}

/// Returns true if both sides converged to the same value (safe to auto-merge).
pub fn both_same(mine: &JsonValue, theirs: &JsonValue) -> (r: bool)
    ensures
        r == same_json(mine@, theirs@),
{
    mine == theirs
}

} // verus!
