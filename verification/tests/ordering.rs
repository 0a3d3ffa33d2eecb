use rinsai::board::Board;
use rinsai::position::PartialPosition;
use rinsai::search::ordering::{capture_key, key_of, HistoryTable, CEILING};
use rinsai::shogi::{Color, Move, Piece, PieceKind, Square, COLORS, PIECE_KINDS};

fn position(sfen: &str) -> Board {
    Board::new(&PartialPosition::from_usi(sfen).expect("test SFEN parses"))
}

fn sq(file: u8, rank: u8) -> Square {
    Square::new(file, rank).expect("a square")
}

#[test]
fn the_dearer_victim_ranks_first() {
    assert!(
        key_of(PieceKind::Rook, PieceKind::Pawn, false)
            > key_of(PieceKind::Pawn, PieceKind::Rook, false)
    );
    assert!(
        key_of(PieceKind::Gold, PieceKind::Gold, false)
            > key_of(PieceKind::Silver, PieceKind::Pawn, false)
    );
}

#[test]
fn an_equal_victim_is_taken_with_the_cheaper_piece() {
    assert!(
        key_of(PieceKind::Gold, PieceKind::Pawn, false)
            > key_of(PieceKind::Gold, PieceKind::Rook, false)
    );
}

#[test]
fn the_king_takes_first_because_a_legal_king_capture_is_free() {
    for attacker in PIECE_KINDS {
        if attacker == PieceKind::King {
            continue;
        }
        assert!(
            key_of(PieceKind::Gold, PieceKind::King, false)
                > key_of(PieceKind::Gold, attacker, false),
            "{attacker:?} ranks at or above the king"
        );
    }
}

#[test]
fn a_capture_that_promotes_ranks_above_the_same_capture_declining() {
    for attacker in [
        PieceKind::Pawn,
        PieceKind::Lance,
        PieceKind::Knight,
        PieceKind::Silver,
        PieceKind::Bishop,
        PieceKind::Rook,
    ] {
        assert!(
            key_of(PieceKind::Pawn, attacker, true) > key_of(PieceKind::Pawn, attacker, false),
            "{attacker:?}"
        );
    }
}

#[test]
fn a_promoted_victim_is_won_at_its_board_value_and_an_unpromoted_hand() {
    assert!(
        key_of(PieceKind::ProRook, PieceKind::Pawn, false)
            > key_of(PieceKind::Rook, PieceKind::Pawn, false)
    );
    assert!(
        key_of(PieceKind::ProPawn, PieceKind::Pawn, false)
            < key_of(PieceKind::Gold, PieceKind::Pawn, false)
    );
}

#[test]
fn a_move_that_takes_nothing_has_no_key() {
    let board = position("sfen 4k4/9/9/9/9/9/9/9/4K4 b P 1");
    let quiet = Move::Normal {
        from: sq(5, 9),
        to: sq(5, 8),
        promote: false,
    };
    assert_eq!(capture_key(&board, quiet), None);

    let drop = Move::Drop {
        piece: Piece::new(PieceKind::Pawn, Color::Black),
        to: sq(5, 5),
    };
    assert_eq!(capture_key(&board, drop), None);
}

#[test]
fn the_board_lookups_find_the_victim_and_the_attacker() {
    let board = position("sfen 4k4/9/6p2/6P2/4s4/4R4/9/9/4K4 b - 1");

    let take_with_rook = Move::Normal {
        from: sq(5, 6),
        to: sq(5, 5),
        promote: false,
    };
    assert_eq!(
        capture_key(&board, take_with_rook),
        Some(key_of(PieceKind::Silver, PieceKind::Rook, false))
    );

    let take_with_pawn = Move::Normal {
        from: sq(3, 4),
        to: sq(3, 3),
        promote: true,
    };
    assert_eq!(
        capture_key(&board, take_with_pawn),
        Some(key_of(PieceKind::Pawn, PieceKind::Pawn, true))
    );
}

#[test]
fn a_king_capture_and_a_cheaper_one_rank_the_king_first() {
    let board = position("sfen 8k/9/9/9/4g4/4KS3/9/9/9 b - 1");
    assert!(board.in_check(), "the fixture stopped being a check");
    let to = sq(5, 5);
    let by = |file, rank| {
        capture_key(
            &board,
            Move::Normal {
                from: sq(file, rank),
                to,
                promote: false,
            },
        )
        .expect("a capture")
    };
    assert!(by(5, 6) > by(4, 6), "the silver outranked the king");
}

fn history_fixture() -> Board {
    let board = position("sfen 4k4/9/9/9/4p4/9/3SP4/9/4K4 b - 1");
    for (file, rank, kind, color) in [
        (5, 7, PieceKind::Pawn, Color::Black),
        (6, 7, PieceKind::Silver, Color::Black),
        (5, 5, PieceKind::Pawn, Color::White),
    ] {
        assert_eq!(
            board.piece_at(sq(file, rank)).map(|p| (p.kind, p.color)),
            Some((kind, color)),
            "the fixture moved its {color:?} {kind:?}"
        );
    }
    board
}

fn normal(from: (u8, u8), to: (u8, u8), promote: bool) -> Move {
    Move::Normal {
        from: sq(from.0, from.1),
        to: sq(to.0, to.1),
        promote,
    }
}

#[test]
fn a_fresh_table_answers_zero_for_every_move() {
    let board = history_fixture();
    let history = HistoryTable::new();
    for mv in &board.legal_moves() {
        assert_eq!(history.value(&board, *mv), 0, "{mv:?}");
    }
}

#[test]
fn a_recorded_move_outranks_one_that_was_not() {
    let board = history_fixture();
    let mut history = HistoryTable::new();
    let recorded = normal((5, 7), (5, 6), false);
    let other = normal((6, 7), (6, 6), false);
    history.record(&board, recorded, 4);
    assert!(history.value(&board, recorded) > history.value(&board, other));
}

#[test]
fn the_index_separates_the_side_the_kind_and_the_destination() {
    let board = history_fixture();
    let mut history = HistoryTable::new();

    let black_pawn = normal((5, 7), (5, 6), false);
    history.record(&board, black_pawn, 4);
    assert!(history.value(&board, black_pawn) > 0);
    assert_eq!(
        history.value(&board, normal((5, 5), (5, 6), false)),
        0,
        "the white pawn to the same square"
    );
    assert_eq!(
        history.value(&board, normal((6, 7), (5, 6), false)),
        0,
        "the black silver to the same square"
    );

    let silver = normal((6, 7), (5, 6), false);
    history.record(&board, silver, 4);
    assert!(history.value(&board, silver) > 0);
    assert_eq!(
        history.value(&board, normal((6, 7), (7, 6), false)),
        0,
        "the same silver to another square"
    );
}

#[test]
fn a_drop_is_indexed_by_the_piece_it_puts_down() {
    let board = position("sfen 4k4/9/9/9/9/9/9/9/4K4 b SP 1");
    let to = sq(5, 5);
    let drop = |kind| Move::Drop {
        piece: Piece::new(kind, Color::Black),
        to,
    };
    let mut history = HistoryTable::new();
    history.record(&board, drop(PieceKind::Pawn), 4);
    assert!(history.value(&board, drop(PieceKind::Pawn)) > 0);
    assert_eq!(history.value(&board, drop(PieceKind::Silver)), 0);
}

#[test]
fn a_promotion_and_its_declining_twin_share_an_entry() {
    let board = position("sfen 4k4/9/9/4P4/9/9/9/9/4K4 b - 1");
    let promoting = normal((5, 4), (5, 3), true);
    let declining = normal((5, 4), (5, 3), false);
    let legal = board.legal_moves();
    assert!(
        legal.contains(&promoting) && legal.contains(&declining),
        "the fixture stopped offering both forms"
    );

    let mut history = HistoryTable::new();
    history.record(&board, promoting, 4);
    assert_eq!(
        history.value(&board, declining),
        history.value(&board, promoting)
    );
}

#[test]
fn the_decay_holds_the_ceiling() {
    let board = history_fixture();
    let recorded = normal((5, 7), (5, 6), false);
    for depth in [1, 32, 127] {
        let mut history = HistoryTable::new();
        for _ in 0..CEILING {
            history.record(&board, recorded, depth);
            assert!(history.value(&board, recorded) <= CEILING);
        }
        assert_eq!(
            history.value(&board, recorded),
            CEILING,
            "depth {depth} never reached the ceiling, so it bounded nothing"
        );
    }
}

#[test]
fn a_deeper_cutoff_is_worth_more_until_both_saturate() {
    let board = history_fixture();
    let recorded = normal((5, 7), (5, 6), false);
    let after = |depth, records| {
        let mut history = HistoryTable::new();
        for _ in 0..records {
            history.record(&board, recorded, depth);
        }
        history.value(&board, recorded)
    };
    assert!(after(4, 1) > after(2, 1), "one record apiece");
    assert_eq!(
        after(4, CEILING),
        after(2, CEILING),
        "saturated entries still tell the two depths apart"
    );
}

#[test]
fn a_move_out_of_an_empty_square_has_no_entry() {
    let board = history_fixture();
    let empty = normal((1, 1), (1, 2), false);
    assert!(
        board.piece_at(sq(1, 1)).is_none(),
        "the fixture put a piece on 1a"
    );
    let mut history = HistoryTable::new();
    history.record(&board, empty, 4);
    assert_eq!(history.value(&board, empty), 0);
}

fn letter(kind: PieceKind, color: Color) -> String {
    let upper = match kind {
        PieceKind::Pawn => "P",
        PieceKind::Lance => "L",
        PieceKind::Knight => "N",
        PieceKind::Silver => "S",
        PieceKind::Gold => "G",
        PieceKind::Bishop => "B",
        PieceKind::Rook => "R",
        PieceKind::King => "K",
        PieceKind::ProPawn => "+P",
        PieceKind::ProLance => "+L",
        PieceKind::ProKnight => "+N",
        PieceKind::ProSilver => "+S",
        PieceKind::ProBishop => "+B",
        PieceKind::ProRook => "+R",
    };
    match color {
        Color::Black => upper.to_owned(),
        Color::White => upper.to_lowercase(),
    }
}

#[test]
fn every_side_kind_and_destination_has_an_entry_of_its_own() {
    let from = sq(5, 5);
    let mut history = HistoryTable::new();
    let mut recorded = 0;

    for color in COLORS {
        for kind in PIECE_KINDS {
            let board = position(&format!(
                "sfen 9/9/9/9/4{}4/9/9/9/9 b - 1",
                letter(kind, color)
            ));
            for place in 0..81 {
                let to = Square::at(place);
                if to == from {
                    continue;
                }
                let mv = Move::Normal {
                    from,
                    to,
                    promote: false,
                };
                assert_eq!(
                    history.value(&board, mv),
                    0,
                    "{color:?} {kind:?} to {to:?} shares an entry"
                );
                history.record(&board, mv, 4);
                recorded += 1;
            }
        }
    }
    assert_eq!(recorded, 2 * 14 * 80, "the walk did not cover the index");
}
