use rinsai::search::budget::MAX_DEPTH;
use rinsai::search::extension::extension;
use rinsai::search::moves::MAX_LEGAL_MOVES;
use rinsai::search::reduction::{reduction, MIN_DEPTH, MIN_PLAYED};
use rinsai::search::score::Depth;

#[test]
fn a_check_is_searched_a_ply_deeper() {
    assert_eq!(extension(true, false), 1);
}

#[test]
fn a_move_that_does_not_check_is_not_extended() {
    assert_eq!(extension(false, false), 0);
    assert_eq!(extension(false, true), 0);
}

#[test]
fn an_evasion_is_not_extended_even_when_it_checks_back() {
    assert_eq!(extension(true, true), 0);
}

fn late_quiet(depth: Depth, played: usize) -> Depth {
    reduction(depth, played, true, false, false)
}

#[test]
fn a_late_quiet_move_is_reduced() {
    assert_eq!(late_quiet(MIN_DEPTH, MIN_PLAYED), 1);
}

#[test]
fn the_front_of_the_list_is_searched_whole() {
    for played in 0..MIN_PLAYED {
        assert_eq!(late_quiet(MIN_DEPTH, played), 0, "played {played}");
    }
}

#[test]
fn a_shallow_node_reduces_nothing() {
    for depth in 1..MIN_DEPTH {
        assert_eq!(late_quiet(depth, MIN_PLAYED), 0, "depth {depth}");
    }
}

#[test]
fn a_reduced_child_is_still_an_interior_node() {
    for depth in 1..=MAX_DEPTH {
        for played in 0..MAX_LEGAL_MOVES {
            let r = late_quiet(depth, played);
            if r > 0 {
                assert!(depth - 1 - r > 0, "depth {depth}, played {played}");
            }
        }
    }
}

#[test]
fn a_capture_is_not_reduced() {
    assert_eq!(reduction(MIN_DEPTH, MIN_PLAYED, false, false, false), 0);
}

#[test]
fn a_checking_move_is_not_reduced() {
    assert_eq!(reduction(MIN_DEPTH, MIN_PLAYED, true, true, false), 0);
}

#[test]
fn a_node_in_check_reduces_nothing() {
    assert_eq!(reduction(MIN_DEPTH, MIN_PLAYED, true, false, true), 0);
}

#[test]
fn the_reduction_is_flat() {
    assert_eq!(late_quiet(32, 60), 1);
}
