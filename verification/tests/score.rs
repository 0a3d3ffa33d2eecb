use std::ops::Neg;

use rinsai::search::score::{Score, MAX_PLY};

#[test]
fn infinite_brackets_every_mate_score() {
    assert!(Score::infinite() > Score::mate());
    assert!(-Score::infinite() < -Score::mate());
    assert!(Score::infinite().get().checked_neg().is_some());
}

#[test]
fn the_three_bands_do_not_overlap() {
    let repetition = Score::repetition();
    assert!(Score::cp(0).clamp_to_eval() < repetition);
    assert!(Score::cp(i32::MAX).clamp_to_eval() < repetition);
    assert!(repetition < Score::mate_in(MAX_PLY));
    assert!(Score::mate_in(MAX_PLY) < Score::infinite());

    assert!(!repetition.is_mate());
    assert!(!(-repetition).is_mate());
    assert_eq!(repetition.mate_plies(), None);
}

#[test]
fn nearer_mates_score_higher() {
    assert!(Score::mate_in(1) > Score::mate_in(5));
    assert!(Score::mated_in(1) < Score::mated_in(5));
    assert_eq!(-Score::mate_in(7), Score::mated_in(7));
}

#[test]
fn ordinary_evaluations_are_not_mates() {
    assert!(!Score::zero().is_mate());
    assert!(!Score::cp(2_500).is_mate());
    assert!(!Score::cp(-2_500).is_mate());
    assert_eq!(Score::cp(150).mate_plies(), None);

    assert!(Score::mate_in(0).is_mate());
    assert!(Score::mate_in(MAX_PLY).is_mate());
    assert!(Score::mated_in(MAX_PLY).is_mate());
}

#[test]
fn mate_plies_round_trips() {
    for ply in [0, 1, 2, 17, MAX_PLY] {
        assert_eq!(Score::mate_in(ply).mate_plies(), Some(ply as i32));
        assert_eq!(Score::mated_in(ply).mate_plies(), Some(-(ply as i32)));
    }
}

#[test]
fn clamping_keeps_evaluations_below_both_upper_bands() {
    assert!(!Score::cp(999_999).clamp_to_eval().is_mate());
    assert!(!Score::cp(-999_999).clamp_to_eval().is_mate());
    assert!(Score::cp(999_999).clamp_to_eval() < Score::repetition());
    assert!(Score::cp(-999_999).clamp_to_eval() > -Score::repetition());
    assert_eq!(Score::cp(120).clamp_to_eval(), Score::cp(120));
}

#[test]
fn debug_reads_as_the_domain_not_the_integer() {
    assert_eq!(Score::cp(-42).describe(), "Score(-42 cp)");
    assert_eq!(Score::mate_in(3).describe(), "Score(mate 3)");
    assert_eq!(Score::infinite().describe(), "Score::INFINITE");
    assert_eq!(Score::repetition().describe(), "Score(repetition won)");
    assert_eq!((-Score::repetition()).describe(), "Score(repetition lost)");
}

#[test]
fn the_bounds_are_what_they_are() {
    assert_eq!(Score::cp(30_000).clamp_to_eval().get(), 29_999);
    assert_eq!(Score::cp(-30_000).clamp_to_eval().get(), -29_999);
    assert_eq!(Score::mate_in(3).get(), 31_997);
    assert_eq!(Score::mated_in(3).get(), -31_997);
    assert!(Score::cp(31_872).is_mate());
    assert!(!Score::cp(31_871).is_mate());
    assert_eq!(Score::cp(17).neg().get(), -17);
}

#[test]
fn a_score_is_shifted_by_centipawns() {
    assert_eq!(Score::cp(5) + 3, Score::cp(8));
    assert_eq!(Score::cp(5) - 7, Score::cp(-2));
}
