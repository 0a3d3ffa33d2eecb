//! How much of a late quiet move's search to skip.

use vstd::prelude::*;

use crate::search::score::Depth;

verus! {

/// The shallowest node that reduces anything.
pub const MIN_DEPTH: Depth = 3;

/// How many moves a node searches at full depth before it starts reducing.
pub const MIN_PLAYED: usize = 4;

/// How many plies are taken off the search of a move.
pub open spec fn plies_off(
    depth: int,
    played: int,
    quiet: bool,
    gives_check: bool,
    in_check: bool,
) -> int {
    if quiet && !gives_check && !in_check && depth >= MIN_DEPTH && played >= MIN_PLAYED {
        1
    } else {
        0
    }
}

/// Captures, checks and evasions are never reduced, nor are the first four moves of
/// a node, nor a node that is less than three plies deep; every other move is, by
/// one ply. A move that is reduced is still searched, and a later move at a deeper
/// node is reduced if an earlier one at a shallower node is.
pub proof fn law_only_late_quiet_moves_are_reduced(
    depth: int,
    played: int,
    quiet: bool,
    gives_check: bool,
    in_check: bool,
)
    ensures
        !quiet || gives_check || in_check ==> plies_off(depth, played, quiet, gives_check, in_check)
            == 0,
        played < 4 || depth < 3 ==> plies_off(depth, played, quiet, gives_check, in_check) == 0,
        quiet && !gives_check && !in_check && played >= 4 && depth >= 3 ==> plies_off(
            depth,
            played,
            quiet,
            gives_check,
            in_check,
        ) == 1,
        plies_off(depth, played, quiet, gives_check, in_check) > 0 ==> depth - 1 - plies_off(
            depth,
            played,
            quiet,
            gives_check,
            in_check,
        ) > 0,
        plies_off(depth, played, quiet, gives_check, in_check) <= plies_off(
            depth + 1,
            played + 1,
            quiet,
            gives_check,
            in_check,
        ),
{
}

/// How many plies to take off the search of a move at a node of `depth` that
/// has searched `played` moves already: one for a late quiet move that gives no
/// check, at a node that is not in check and not too shallow.
pub fn reduction(
    depth: Depth,
    played: usize,
    quiet: bool,
    gives_check: bool,
    in_check: bool,
) -> (r: Depth)
    ensures
        r == (if quiet && !gives_check && !in_check && depth >= MIN_DEPTH && played >= MIN_PLAYED {
            1int
        } else {
            0
        }),
        r == plies_off(depth as int, played as int, quiet, gives_check, in_check),
        r > 0 ==> depth - 1 - r > 0,
{
    if !quiet || gives_check || in_check {
        return 0;
    }
    if depth < MIN_DEPTH || played < MIN_PLAYED {
        return 0;
    }
    1
}

} // verus!
