use rinsai::search::repetition::{verdict, HistoryEntry, Repetition};
use rinsai::search::score::Score;
use rinsai::shogi::Hand;

fn entry(key: u64) -> HistoryEntry {
    HistoryEntry {
        key,
        black: Hand::new(),
        white: Hand::new(),
        in_check: false,
    }
}

fn entries(keys: &[(u64, bool)]) -> Vec<HistoryEntry> {
    keys.iter()
        .map(|&(key, in_check)| HistoryEntry {
            in_check,
            ..entry(key)
        })
        .collect()
}

fn shuffle(n: usize) -> Vec<HistoryEntry> {
    (0..n).map(|i| entry(if i % 2 == 0 { 1 } else { 2 })).collect()
}

#[test]
fn nothing_to_report_on_a_short_or_empty_path() {
    assert_eq!(verdict(&Vec::new()), None);
    assert_eq!(verdict(&shuffle(1)), None);
    assert_eq!(verdict(&shuffle(2)), None);
}

#[test]
fn the_fourth_occurrence_is_the_repetition_and_the_third_is_not() {
    assert_eq!(verdict(&shuffle(5)), None);
    assert_eq!(verdict(&shuffle(7)), Some(Repetition::Draw));
}

#[test]
fn a_key_match_with_different_hands_does_not_count() {
    let mut path = shuffle(7);
    path[2].black.pawn = 1;
    assert_eq!(verdict(&path), None);
}

#[test]
fn the_side_to_move_loses_when_it_gave_every_check() {
    let checked = entries(&[
        (1, false),
        (2, true),
        (1, false),
        (2, true),
        (1, false),
        (2, true),
        (1, false),
    ]);
    assert_eq!(verdict(&checked), Some(Repetition::PerpetualCheckLoss));
}

#[test]
fn the_opponent_loses_when_it_gave_every_check() {
    let checked = entries(&[
        (1, true),
        (2, false),
        (1, true),
        (2, false),
        (1, true),
        (2, false),
        (1, true),
    ]);
    assert_eq!(verdict(&checked), Some(Repetition::PerpetualCheckWin));
}

#[test]
fn mutual_perpetual_check_is_a_draw() {
    let both = entries(&[
        (1, true),
        (2, true),
        (1, true),
        (2, true),
        (1, true),
        (2, true),
        (1, true),
    ]);
    assert_eq!(verdict(&both), Some(Repetition::Draw));
}

#[test]
fn one_unchecked_ply_makes_it_an_ordinary_draw() {
    let mut nearly = entries(&[
        (1, false),
        (2, true),
        (1, false),
        (2, true),
        (1, false),
        (2, true),
        (1, false),
    ]);
    nearly[3].in_check = false;
    assert_eq!(verdict(&nearly), Some(Repetition::Draw));
}

#[test]
fn only_the_four_occurrences_are_in_the_window() {
    let five = entries(&[
        (1, false),
        (2, false),
        (1, false),
        (2, true),
        (1, false),
        (2, true),
        (1, false),
        (2, true),
        (1, false),
    ]);
    assert_eq!(verdict(&five), Some(Repetition::PerpetualCheckLoss));
}

#[test]
fn a_draw_is_worth_nothing_and_a_perpetual_check_is_not() {
    assert_eq!(Repetition::Draw.score(), Score::zero());
    assert_eq!(
        Repetition::PerpetualCheckWin.score(),
        -Repetition::PerpetualCheckLoss.score()
    );
    assert!(Repetition::PerpetualCheckWin.score() > Score::zero());
    assert!(!Repetition::PerpetualCheckWin.score().is_mate());
    assert!(!Repetition::PerpetualCheckLoss.score().is_mate());
}
