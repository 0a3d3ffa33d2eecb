use rinsai::position::PartialPosition;
use rinsai::referee::inventory::{over_inventory, unrepresentable, ImpossiblePieceCount};
use rinsai::referee::moves::{in_check, move_from_usi};
use rinsai::referee::repetition::{position_key, RepetitionIndex};
use rinsai::shogi::{Color, Move, Piece, PieceKind, Square};

fn sq(file: u8, rank: u8) -> Square {
    Square::new(file, rank).expect("valid square")
}

fn position(sfen: &str) -> PartialPosition {
    PartialPosition::from_usi(sfen).expect("valid sfen")
}

#[test]
fn a_drop_is_recoloured_to_the_side_to_move() {
    let black = move_from_usi("P*5e", Color::Black).expect("valid drop");
    let white = move_from_usi("P*5e", Color::White).expect("valid drop");
    assert_eq!(
        black,
        Move::Drop {
            piece: Piece::new(PieceKind::Pawn, Color::Black),
            to: sq(5, 5),
        }
    );
    assert_eq!(
        white,
        Move::Drop {
            piece: Piece::new(PieceKind::Pawn, Color::White),
            to: sq(5, 5),
        },
        "the notation names no colour"
    );
}

#[test]
fn a_normal_move_passes_through_untouched() {
    for side in [Color::Black, Color::White] {
        assert_eq!(
            move_from_usi("7g7f", side).expect("valid move"),
            Move::Normal {
                from: sq(7, 7),
                to: sq(7, 6),
                promote: false,
            }
        );
    }
    assert_eq!(
        move_from_usi("2b3a+", Color::Black).expect("valid move"),
        Move::Normal {
            from: sq(2, 2),
            to: sq(3, 1),
            promote: true,
        }
    );
}

#[test]
fn parsing_round_trips_through_to_usi() {
    for text in ["7g7f", "2b3a+", "P*5e", "B*4d"] {
        let mv = move_from_usi(text, Color::Black).expect("valid move");
        assert_eq!(mv.to_usi_owned(), text);
    }
}

#[test]
fn trailing_junk_is_rejected() {
    assert!(move_from_usi("7g7f7", Color::Black).is_err());
    assert!(move_from_usi("7g7z", Color::Black).is_err());
    assert!(move_from_usi("", Color::Black).is_err());
}

#[test]
fn the_start_position_has_neither_king_in_check() {
    let position = PartialPosition::startpos();
    assert!(!in_check(&position, Color::Black));
    assert!(!in_check(&position, Color::White));
}

#[test]
fn a_checking_move_is_detected_for_the_side_that_is_checked() {
    let position = position("sfen 4k4/9/9/9/9/9/9/9/4K4 b R 1");
    let checked = position.after(Move::Drop {
        piece: Piece::new(PieceKind::Rook, Color::Black),
        to: sq(5, 5),
    });

    assert!(
        in_check(&checked, Color::White),
        "White is checked on the file"
    );
    assert!(!in_check(&checked, Color::Black));
    assert_ne!(checked.king_falls(), Some(true));
}

#[test]
fn a_position_no_shogi_set_could_hold_names_the_kind_and_the_count() {
    for (sfen, kind, count, total) in [
        (
            "sfen 4k4/9/9/9/9/9/9/9/4K4 b 19P 1",
            PieceKind::Pawn,
            19,
            18,
        ),
        ("sfen 4k4/9/9/9/9/9/9/9/4K4 b 5R 1", PieceKind::Rook, 5, 2),
        (
            "sfen 4k4/9/9/9/4+P4/9/9/9/4K4 b 18P 1",
            PieceKind::Pawn,
            19,
            18,
        ),
        ("sfen 3kg4/9/9/9/9/9/9/9/3KG4 b 4G 1", PieceKind::Gold, 6, 4),
        ("sfen 8l/9/9/9/9/9/9/8g/8K b 19P 1", PieceKind::Pawn, 19, 18),
    ] {
        assert_eq!(
            over_inventory(&position(sfen)),
            Some(ImpossiblePieceCount { kind, count, total }),
            "{sfen}"
        );
    }
    assert_eq!(
        over_inventory(&position("sfen 4k4/9/9/9/9/9/9/9/4K4 b 18P 1")),
        None,
        "eighteen pawns is a real position"
    );
    assert_eq!(
        over_inventory(&position("sfen 4k4/9/9/9/9/9/9/9/3KK4 b - 1")),
        None,
        "the census does not count kings"
    );
}

#[test]
fn a_position_past_what_a_game_can_hold_names_the_kind_and_the_count() {
    let most = position("sfen 4k4/9/9/9/9/9/9/9/4K4 b 99P 1");
    assert_eq!(unrepresentable(&most), None);
    let over = position("sfen 4k4/9/9/9/4p4/9/9/9/4K4 b 99P 1");
    let found = unrepresentable(&over).expect("a hundred pawns");
    assert_eq!((found.kind, found.count), (PieceKind::Pawn, 100));
    assert_eq!(
        found.describe(),
        "100 Pawn on the board and in hand, past the 99 a game can hold"
    );
    assert_eq!(
        over_inventory(&over).expect("over a set too").describe(),
        "100 Pawn on the board and in hand, but a set holds 18"
    );
}

#[test]
fn the_key_ignores_the_move_number() {
    let a = PartialPosition::startpos().with_ply(1);
    let b = PartialPosition::startpos().with_ply(57);
    assert_eq!(position_key(&a), position_key(&b));
    assert!(position_key(&a).same(&position_key(&b)));
}

#[test]
fn the_key_separates_positions_that_differ_only_in_side_to_move() {
    let a = PartialPosition::startpos();
    let b = PartialPosition::startpos().with_side_to_move(Color::White);
    assert_ne!(position_key(&a), position_key(&b));
    assert!(!position_key(&a).same(&position_key(&b)));
}

#[test]
fn the_key_separates_positions_that_differ_only_in_hand_contents() {
    let a = PartialPosition::startpos();
    let b = position("sfen lnsgkgsnl/1r5b1/ppppppppp/9/9/9/PPPPPPPPP/1B5R1/LNSGKGSNL b P 1");
    assert_ne!(position_key(&a), position_key(&b));
}

fn slide(from: Square, to: Square) -> Move {
    Move::Normal {
        from,
        to,
        promote: false,
    }
}

#[test]
fn a_four_fold_cycle_reaches_a_count_of_four() {
    let cycle = [
        (sq(2, 8), sq(3, 8)),
        (sq(8, 2), sq(7, 2)),
        (sq(3, 8), sq(2, 8)),
        (sq(7, 2), sq(8, 2)),
    ];
    let mut position = PartialPosition::startpos();
    let mut index = RepetitionIndex::new(&position);
    let mut counts = Vec::new();
    for _ in 0..3 {
        for (from, to) in cycle {
            position = position.after(slide(from, to));
            counts.push(index.push(&position));
        }
    }
    assert_eq!(counts[3], 2);
    assert_eq!(counts[7], 3);
    assert_eq!(counts[11], 4);
}

#[test]
fn popping_restores_the_previous_counts_exactly() {
    let position = PartialPosition::startpos();
    let mut index = RepetitionIndex::new(&position);
    let before = index.clone();

    let next = position.after(slide(sq(7, 7), sq(7, 6)));
    index.push(&next);
    index.pop();

    assert_eq!(format!("{index:?}"), format!("{before:?}"));
    assert_eq!(index.push(&next), 1, "the popped position is still counted");
    index.pop();
    assert_eq!(index.push(&position), 2, "the first position was lost");
}

#[test]
fn first_occurrence_points_at_the_start_of_the_cycle() {
    let cycle = [
        (sq(2, 8), sq(3, 8)),
        (sq(8, 2), sq(7, 2)),
        (sq(3, 8), sq(2, 8)),
        (sq(7, 2), sq(8, 2)),
    ];
    let mut position = PartialPosition::startpos();
    let mut index = RepetitionIndex::new(&position);
    for (from, to) in cycle {
        position = position.after(slide(from, to));
        index.push(&position);
    }
    assert_eq!(index.first_occurrence(), Some(0));
}
