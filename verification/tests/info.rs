use rinsai::search::clock::Duration;
use rinsai::search::info::{nps, SearchInfo};
use rinsai::search::score::Score;
use rinsai::shogi::{Color, Move, Piece, PieceKind, Square};

fn pv() -> Vec<Move> {
    vec![
        Move::Normal {
            from: Square::new(7, 7).expect("7g"),
            to: Square::new(7, 6).expect("7f"),
            promote: false,
        },
        Move::Drop {
            piece: Piece::new(PieceKind::Silver, Color::Black),
            to: Square::new(5, 2).expect("5b"),
        },
    ]
}

fn info(score: Score, pv: &Vec<Move>) -> String {
    SearchInfo {
        depth: 7,
        seldepth: 11,
        score,
        nodes: 123_456,
        hashfull: None,
        elapsed: Duration::from_millis(200),
        pv,
    }
    .describe()
}

#[test]
fn an_info_line_reads_as_usi() {
    assert_eq!(
        info(Score::cp(-42), &pv()),
        "info depth 7 seldepth 11 time 200 nodes 123456 nps 617280 score cp -42 pv 7g7f S*5b"
    );
}

#[test]
fn seldepth_is_printed_even_when_it_equals_depth() {
    let line = SearchInfo {
        depth: 4,
        seldepth: 4,
        score: Score::zero(),
        nodes: 1,
        hashfull: None,
        elapsed: Duration::from_millis(1),
        pv: &Vec::new(),
    }
    .describe();
    assert!(line.starts_with("info depth 4 seldepth 4 time "), "{line}");
}

#[test]
fn a_mate_score_is_reported_in_plies() {
    assert!(info(Score::mate_in(3), &pv()).contains(" score mate 3 "));
    assert!(info(Score::mated_in(3), &pv()).contains(" score mate -3 "));
}

#[test]
fn an_empty_pv_omits_the_pv_token() {
    let line = info(Score::zero(), &Vec::new());
    assert!(line.ends_with(" score cp 0"), "{line}");
    assert!(!line.contains("pv"), "{line}");
}

#[test]
fn no_elapsed_time_does_not_divide_by_zero() {
    let line = SearchInfo {
        depth: 1,
        seldepth: 1,
        score: Score::zero(),
        nodes: 31,
        hashfull: None,
        elapsed: Duration::zero(),
        pv: &Vec::new(),
    }
    .describe();
    assert_eq!(
        line,
        "info depth 1 seldepth 1 time 0 nodes 31 nps 0 score cp 0"
    );
}

#[test]
fn the_fullness_of_the_table_stands_before_the_score() {
    let line = SearchInfo {
        depth: 2,
        seldepth: 5,
        score: Score::cp(10),
        nodes: 1000,
        hashfull: Some(37),
        elapsed: Duration::from_millis(10),
        pv: &Vec::new(),
    }
    .describe();
    assert_eq!(
        line,
        "info depth 2 seldepth 5 time 10 nodes 1000 nps 100000 hashfull 37 score cp 10"
    );
}

#[test]
fn the_rate_is_counted_from_nanoseconds() {
    assert_eq!(nps(31, Duration::zero()), 0);
    assert_eq!(nps(3, Duration::from_nanos(1_500_000)), 2_000);
    assert_eq!(nps(u64::MAX, Duration::from_nanos(1)), u64::MAX as u128 * 1_000_000_000);
}

#[test]
fn time_is_held_as_far_as_it_can_be() {
    let longest = Duration::from_nanos(u128::MAX);
    assert_eq!(longest.saturating_add(Duration::from_millis(1)), longest);
    assert_eq!(
        Duration::from_millis(5).saturating_sub(Duration::from_millis(7)),
        Duration::zero()
    );
    assert_eq!(Duration::from_millis(90).part_of(45), Duration::from_millis(2));
    assert_eq!(Duration::from_nanos(1_999_999).as_millis(), 1);
    assert!(Duration::from_millis(3).reaches(Duration::from_millis(3)));
    assert!(!Duration::from_millis(2).reaches(Duration::from_millis(3)));
    assert_eq!(
        Duration::from_millis(2).min(Duration::from_millis(3)),
        Duration::from_millis(2)
    );
}
