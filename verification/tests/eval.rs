use rinsai::board::Board;
use rinsai::position::PartialPosition;
use rinsai::search::eval::{board_value, capture_gain, evaluate, hand_value};
use rinsai::search::moves::is_legal;
use rinsai::search::score::{Score, MAX_PLY};
use rinsai::shogi::{Move, PieceKind, Square, COLORS, HAND_KINDS, PIECE_KINDS};

fn position(sfen: &str) -> Board {
    Board::new(&PartialPosition::from_usi(sfen).expect("test SFEN parses"))
}

fn evaluate_naively(position: &Board) -> Score {
    let us = position.side_to_move();
    let mut total: i32 = 0;
    for square in (0..81).map(Square::at) {
        if let Some(piece) = position.piece_at(square) {
            let value = board_value(piece.kind);
            total += if piece.color == us { value } else { -value };
        }
    }
    for color in COLORS {
        let hand = position.hand(color);
        for kind in HAND_KINDS {
            let value = hand_value(kind) * i32::from(hand.count(kind).unwrap_or(0));
            total += if color == us { value } else { -value };
        }
    }
    Score::cp(total)
}

#[test]
fn the_initial_position_is_materially_equal() {
    assert_eq!(
        evaluate(&Board::new(&PartialPosition::startpos())),
        Score::zero()
    );
}

#[test]
fn the_table_is_indexed_by_kind() {
    let expected = [
        (PieceKind::Pawn, 100, 115),
        (PieceKind::Lance, 350, 400),
        (PieceKind::Knight, 400, 450),
        (PieceKind::Silver, 550, 610),
        (PieceKind::Gold, 600, 660),
        (PieceKind::Bishop, 850, 950),
        (PieceKind::Rook, 1000, 1100),
        (PieceKind::King, 0, 0),
        (PieceKind::ProPawn, 600, 0),
        (PieceKind::ProLance, 600, 0),
        (PieceKind::ProKnight, 600, 0),
        (PieceKind::ProSilver, 600, 0),
        (PieceKind::ProBishop, 1150, 0),
        (PieceKind::ProRook, 1350, 0),
    ];
    assert_eq!(expected.len(), PIECE_KINDS.len());
    for (kind, board, hand) in expected {
        assert_eq!(board_value(kind), board, "board value of {kind:?}");
        assert_eq!(hand_value(kind), hand, "hand value of {kind:?}");
    }
}

#[test]
fn the_table_is_ordered_the_way_shogi_is() {
    let v = board_value;
    assert!(v(PieceKind::Rook) > v(PieceKind::Bishop));
    assert!(
        v(PieceKind::Bishop) > v(PieceKind::Gold)
            && v(PieceKind::Gold) > v(PieceKind::Silver)
            && v(PieceKind::Silver) > v(PieceKind::Knight)
            && v(PieceKind::Knight) > v(PieceKind::Lance)
            && v(PieceKind::Lance) > v(PieceKind::Pawn)
    );
    assert!(v(PieceKind::ProRook) > v(PieceKind::ProBishop));
    assert!(v(PieceKind::ProBishop) > v(PieceKind::Rook));

    for kind in [
        PieceKind::ProPawn,
        PieceKind::ProLance,
        PieceKind::ProKnight,
        PieceKind::ProSilver,
    ] {
        assert_eq!(v(kind), v(PieceKind::Gold), "{kind:?}");
    }

    for kind in HAND_KINDS {
        let (board, hand) = (board_value(kind), hand_value(kind));
        assert!(
            hand > board,
            "{kind:?}: hand {hand} not above board {board}"
        );
        assert!(hand * 100 <= board * 115, "{kind:?}: premium above 15%");
    }
}

#[test]
fn every_value_is_a_round_number() {
    for kind in PIECE_KINDS {
        assert_eq!(board_value(kind) % 5, 0, "board {kind:?}");
        assert_eq!(hand_value(kind) % 5, 0, "hand {kind:?}");
    }
}

#[test]
fn no_material_balance_can_reach_the_mate_band() {
    let set = [
        (PieceKind::Pawn, 18),
        (PieceKind::Lance, 4),
        (PieceKind::Knight, 4),
        (PieceKind::Silver, 4),
        (PieceKind::Gold, 4),
        (PieceKind::Bishop, 2),
        (PieceKind::Rook, 2),
    ];
    let mut most = 0;
    for (kind, count) in set {
        let promoted = kind.promote().map_or(0, board_value);
        let dearest = board_value(kind).max(hand_value(kind)).max(promoted);
        most += dearest * count;
    }
    assert!(
        !Score::cp(most).is_mate() && !Score::cp(-most).is_mate(),
        "the largest material balance ({most} cp) reaches the mate band, which starts at {} cp",
        Score::mate().get() - MAX_PLY as i32
    );
}

#[test]
fn evaluation_is_from_the_side_to_move() {
    let black = evaluate(&position("sfen 4k4/9/9/9/9/9/9/9/4K4 b R 1"));
    let white = evaluate(&position("sfen 4k4/9/9/9/9/9/9/9/4K4 w R 1"));
    assert_eq!(black, Score::cp(hand_value(PieceKind::Rook)));
    assert_eq!(white, -black);
}

#[test]
fn a_capture_is_worth_the_board_value_plus_the_hand_value() {
    let mut board = position("sfen 4k4/9/9/9/4s4/4R4/9/9/4K4 b - 1");
    let before = evaluate(&board);

    let mv = Move::Normal {
        from: Square::new(5, 6).expect("5f"),
        to: Square::new(5, 5).expect("5e"),
        promote: false,
    };
    assert!(is_legal(&board, mv), "the fixture's capture is legal");
    board.do_move(mv);

    let gain = (-evaluate(&board)).get() - before.get();
    assert_eq!(
        gain,
        board_value(PieceKind::Silver) + hand_value(PieceKind::Silver)
    );
    assert_eq!(gain, capture_gain(PieceKind::Silver));
}

#[test]
fn the_fast_path_agrees_with_the_oracle() {
    for sfen in [
        "sfen lnsgkgsnl/1r5b1/ppppppppp/9/9/9/PPPPPPPPP/1B5R1/LNSGKGSNL b - 1",
        "sfen l6nl/5+P1gk/2np1S3/p1p4Pp/3P2Sp1/1PPb2P1P/P5GS1/R8/LN4bKL w RGgsn5p 1",
        "sfen 4k4/9/4+P4/4+r4/9/4+B4/4+n4/9/4K4 b GSgs 1",
        "sfen 4k4/9/9/9/9/9/9/9/4K4 b - 1",
        "sfen 9/9/9/9/9/9/9/9/9 b - 1",
    ] {
        let board = position(sfen);
        assert_eq!(evaluate(&board), evaluate_naively(&board), "{sfen}");
    }
}

#[test]
fn the_fast_path_agrees_with_the_oracle_through_a_whole_game() {
    fn next(state: &mut u64) -> u64 {
        *state ^= *state << 13;
        *state ^= *state >> 7;
        *state ^= *state << 17;
        *state
    }

    let mut board = Board::new(&PartialPosition::startpos());
    let mut state = 0x2026_0806_5348_4f47_u64;
    for ply in 0..200 {
        assert_eq!(
            evaluate(&board),
            evaluate_naively(&board),
            "disagreed at ply {ply} of the playout: {}",
            board.key()
        );
        let moves = board.legal_moves();
        let Ok(len) = u64::try_from(moves.len()) else {
            break;
        };
        if len == 0 {
            break;
        }
        let index = usize::try_from(next(&mut state) % len).expect("index fits");
        board.do_move(moves[index]);
    }
}
