//! How much deeper than its siblings to search a move that gives check.

use vstd::prelude::*;

use crate::search::score::Depth;

verus! {

/// How many plies to add to the search of a move: one for a check, unless the
/// node is in check itself.
pub open spec fn extra_plies(gives_check: bool, in_check: bool) -> int {
    if gives_check && !in_check {
        1
    } else {
        0
    }
}

pub fn extension(gives_check: bool, in_check: bool) -> (r: Depth)
    ensures
        r == extra_plies(gives_check, in_check),
{
    if gives_check && !in_check {
        1
    } else {
        0
    }
}

/// Over two plies in a row depth is spent: the node after a move that gave
/// check is in check, so of two successive moves at most one is extended.
pub proof fn law_depth_falls_within_two_plies(
    depth: int,
    first_checks: bool,
    first_in_check: bool,
    second_checks: bool,
)
    ensures
        depth - 1 + extra_plies(first_checks, first_in_check) - 1 + extra_plies(
            second_checks,
            first_checks,
        ) < depth,
{
}

/// A check is searched a ply deeper, unless it is given out of check; nothing else
/// is.
pub proof fn law_only_a_check_is_extended(gives_check: bool, in_check: bool)
    ensures
        0 <= extra_plies(gives_check, in_check) <= 1,
        extra_plies(gives_check, in_check) == 1 <==> gives_check && !in_check,
{
}

} // verus!
