use rinsai::position::PartialPosition;
use rinsai::search::game::{Game, IllegalMove, PositionError};
use rinsai::shogi::{Color, Move, Piece, PieceKind, Square};

const STARTPOS_SFEN: &str = "lnsgkgsnl/1r5b1/ppppppppp/9/9/9/PPPPPPPPP/1B5R1/LNSGKGSNL b - 1";

fn parsed(args: &str) -> Game {
    match Game::from_usi_position(args) {
        Ok(game) => game,
        Err(e) => panic!("`{args}`: {}", e.describe()),
    }
}

fn refused(args: &str) -> PositionError {
    match Game::from_usi_position(args) {
        Ok(_) => panic!("accepted `{args}`"),
        Err(e) => e,
    }
}

#[test]
fn startpos_and_its_sfen_agree() {
    let game = parsed("startpos");
    assert_eq!(game.sfen(), STARTPOS_SFEN);
    assert_eq!(game.side_to_move(), Color::Black);
    assert_eq!(game.moves().len(), 0);
    assert_eq!(game.history().len(), 1);
}

#[test]
fn an_sfen_root_round_trips() {
    let sfen = "sfen l6nl/5+P1gk/2np1S3/p1p4Pp/3P2Sp1/1PPb2P1P/P5GS1/R8/LN4bKL w RGgsn5p 1";
    let game = parsed(sfen);
    assert_eq!(format!("sfen {}", game.sfen()), sfen);
    assert_eq!(game.side_to_move(), Color::White);
}

#[test]
fn the_sfen_move_number_is_optional() {
    let with = parsed(&format!("sfen {STARTPOS_SFEN} moves 7g7f"));
    let without = parsed(
        "sfen lnsgkgsnl/1r5b1/ppppppppp/9/9/9/PPPPPPPPP/1B5R1/LNSGKGSNL b - moves 7g7f",
    );
    assert_eq!(with.sfen(), without.sfen());
}

#[test]
fn moves_are_applied_in_order() {
    let game = parsed("startpos moves 7g7f 3c3d 8h2b+ 3a2b");
    assert_eq!(game.moves().len(), 4);
    assert_eq!(game.history().len(), 5);
    assert_eq!(game.side_to_move(), Color::Black);

    let two_b = Square::new(2, 2).expect("2b");
    assert_eq!(
        game.position().piece_at(two_b),
        Some(Piece::new(PieceKind::Silver, Color::White))
    );
    assert_eq!(
        game.position().hand(Color::Black).count(PieceKind::Bishop),
        Some(1)
    );
    assert_eq!(
        game.position().hand(Color::White).count(PieceKind::Bishop),
        Some(1)
    );
}

#[test]
fn game_drops_take_the_side_to_move_colour() {
    let game = parsed("sfen 9/9/9/9/9/9/9/9/K7k b Rp 1 moves R*9a P*9b");
    assert_eq!(
        game.position().piece_at(Square::new(9, 1).expect("9a")),
        Some(Piece::new(PieceKind::Rook, Color::Black))
    );
    assert_eq!(
        game.position().piece_at(Square::new(9, 2).expect("9b")),
        Some(Piece::new(PieceKind::Pawn, Color::White))
    );
}

#[test]
fn an_illegal_move_fails_the_whole_command() {
    assert_eq!(
        refused("startpos moves 7g7f 3c3d 5e5d 8h2b+"),
        PositionError::IllegalMove {
            index: 3,
            token: "5e5d".to_owned()
        }
    );
}

#[test]
fn a_malformed_move_token_is_reported_with_its_index() {
    assert_eq!(
        refused("startpos moves 7g7f zzzz"),
        PositionError::MoveSyntax {
            index: 2,
            token: "zzzz".to_owned()
        }
    );
}

#[test]
fn a_position_no_shogi_set_could_reach_is_rejected() {
    for sfen in [
        "sfen 4k4/9/9/9/9/9/9/9/4K4 b 19P 1",
        "sfen 4k4/9/9/9/9/9/9/9/4K4 b 99P 1",
        "sfen 4k4/9/9/9/9/9/9/9/4K4 w 19p 1",
        "sfen 4k4/9/9/9/9/9/9/9/4K4 b 5R 1",
        "sfen 4k4/9/9/9/4p4/9/9/9/4K4 b 18P 1",
        "sfen 4k4/9/9/9/4+P4/9/9/9/4K4 b 18P 1",
        "sfen 3kg4/9/9/9/9/9/9/9/3KG4 b 4G 1",
    ] {
        assert!(
            matches!(
                Game::from_usi_position(sfen),
                Err(PositionError::BadRoot { .. })
            ),
            "accepted an impossible position: {sfen}"
        );
    }
}

#[test]
fn a_legal_but_lopsided_position_is_accepted() {
    for sfen in [
        "sfen 4k4/9/9/9/9/9/9/9/4K4 b 18P 1",
        "sfen 4k4/9/9/9/9/9/9/9/4K4 b 2R2B4G4S4N4L18P 1",
        "sfen l6nl/5+P1gk/2np1S3/p1p4Pp/3P2Sp1/1PPb2P1P/P5GS1/R8/LN4bKL w RGgsn5p 1",
    ] {
        assert!(
            Game::from_usi_position(sfen).is_ok(),
            "rejected a reachable position: {sfen}"
        );
    }
}

#[test]
fn two_kings_of_one_colour_are_rejected() {
    for sfen in [
        "sfen 9/9/9/9/9/9/9/9/3KK4 b - 1",
        "sfen 4k4/9/9/9/9/9/9/9/3KK4 b - 1",
        "sfen 3kk4/9/9/9/9/9/9/9/4K4 b - 1",
    ] {
        assert!(
            matches!(
                Game::from_usi_position(sfen),
                Err(PositionError::BadRoot { .. })
            ),
            "accepted two kings of one colour: {sfen}"
        );
    }
}

#[test]
fn a_position_with_no_king_for_one_side_is_accepted() {
    for sfen in [
        "sfen 4k4/9/4P4/9/9/9/9/9/9 b G2r2b3g4s4n4l17p 1",
        "sfen 9/9/9/9/9/9/9/9/9 b - 1",
    ] {
        assert!(
            Game::from_usi_position(sfen).is_ok(),
            "rejected a king-less position: {sfen}"
        );
    }
}

#[test]
fn an_out_of_range_move_number_is_rejected_rather_than_clamped() {
    let board = "lnsgkgsnl/1r5b1/ppppppppp/9/9/9/PPPPPPPPP/1B5R1/LNSGKGSNL b -";
    for bad in ["0", "65536", "99999999999999999999", "-1", "1.5"] {
        assert!(
            matches!(
                Game::from_usi_position(&format!("sfen {board} {bad}")),
                Err(PositionError::BadRoot { .. })
            ),
            "accepted move number `{bad}`"
        );
    }
    for good in ["1", "2", "65535"] {
        assert!(
            Game::from_usi_position(&format!("sfen {board} {good}")).is_ok(),
            "rejected move number `{good}`"
        );
    }
    assert!(Game::from_usi_position(&format!("sfen {board}")).is_ok());
}

#[test]
fn a_bad_root_is_reported_rather_than_guessed_at() {
    assert_eq!(refused(""), PositionError::MissingRoot);
    assert!(matches!(
        Game::from_usi_position("sfen not/a/real/sfen b - 1"),
        Err(PositionError::BadRoot { .. })
    ));
    assert!(matches!(
        Game::from_usi_position("sfen 9/9/9"),
        Err(PositionError::BadRoot { .. })
    ));
    assert!(matches!(
        Game::from_usi_position("frobnicate"),
        Err(PositionError::UnexpectedToken { .. })
    ));
    assert!(matches!(
        Game::from_usi_position("startpos mvoes 7g7f"),
        Err(PositionError::UnexpectedToken { .. })
    ));
}

#[test]
fn an_empty_moves_list_is_accepted() {
    let game = parsed("startpos moves");
    assert_eq!(game.sfen(), STARTPOS_SFEN);
}

#[test]
fn the_history_records_every_position_reached() {
    let game = parsed("startpos moves 7g7f 3c3d 8h3c+");
    assert_eq!(game.history().len(), game.moves().len() + 1);

    let entries = game.history();
    assert!(!entries[0].in_check);
    assert_eq!(entries[3].in_check, game.in_check());
    assert_eq!(entries[3].key, game.position().key());
    assert_eq!(
        [entries[3].black, entries[3].white],
        [
            game.position().hand(Color::Black),
            game.position().hand(Color::White)
        ]
    );
}

#[test]
fn the_record_keeps_its_root_while_the_board_advances() {
    let mut game = parsed("startpos");
    let root = game.sfen();
    assert_eq!(game.initial_sfen(), root);

    for token in ["7g7f", "3c3d", "8h2b+", "3a2b", "B*5e"] {
        if let Err(e) = game.push_usi_move(token) {
            panic!("{token}: {}", e.describe());
        }
    }
    assert_eq!(game.initial_sfen(), root, "the root moved");
    assert_ne!(game.sfen(), root);
    assert_eq!(game.moves().len(), 5);
    assert_eq!(game.history().len(), 6);
}

#[test]
fn cloning_cross_checks_the_lockstep_board() {
    let game = parsed("startpos moves 7g7f 3c3d 8h2b+ 3a2b B*5e");
    let copy = game.clone();
    assert_eq!(copy.sfen(), game.sfen());
    assert_eq!(copy.position().key(), game.position().key());
    assert_eq!(copy.moves(), game.moves());
    assert_eq!(copy.history(), game.history());
}

#[test]
fn debug_reads_back_as_the_position_command_that_built_it() {
    let game = parsed("startpos moves 7g7f 3c3d");
    assert_eq!(
        game.describe(),
        format!("Game {{ sfen {STARTPOS_SFEN} moves 7g7f 3c3d }}")
    );
}

#[test]
fn every_refusal_reads_as_what_it_is() {
    for (args, text) in [
        ("", "expected `startpos` or `sfen …`"),
        ("frobnicate", "expected `moves`, found `frobnicate` at token 0"),
        (
            "startpos mvoes 7g7f",
            "expected `moves`, found `mvoes` at token 1",
        ),
        (
            "sfen 9/9/9",
            "bad root position: expected 3 or 4 SFEN fields, found 1",
        ),
        (
            "sfen 9/9/9/9/9/9/9/9/9 b - 0",
            "bad root position: move number `0` is not in 1..=65535",
        ),
        (
            "sfen 4k4/9/9/9/9/9/9/9/4K4 b 19P 1",
            "bad root position: 19 Pawn on the board and in hand, but a set has 18",
        ),
        (
            "sfen 9/9/9/9/9/9/9/9/3KK4 b - 1",
            "bad root position: 2 Black kings, but a set has one each",
        ),
        (
            "sfen 3kk4/9/9/9/9/9/9/9/4K4 b - 1",
            "bad root position: 2 White kings, but a set has one each",
        ),
        (
            "startpos moves 7g7f zzzz",
            "move 2 `zzzz` is not USI move notation",
        ),
        (
            "startpos moves 7g7f 7g7f",
            "move 2 `7g7f` is not legal in this position",
        ),
    ] {
        assert_eq!(refused(args).describe(), text, "{args}");
    }
    assert!(refused("sfen what is this")
        .describe()
        .starts_with("bad root position: InvalidInput { from: "));
}

#[test]
fn a_refused_move_leaves_the_game_as_it_was() {
    let mut game = Game::from_startpos();
    let mv = Move::Normal {
        from: Square::new(5, 5).expect("5e"),
        to: Square::new(5, 4).expect("5d"),
        promote: false,
    };
    assert_eq!(game.push_move(mv), Err(IllegalMove(mv)));
    assert_eq!(
        IllegalMove(mv).describe(),
        "`5e5d` is not legal in this position"
    );
    assert_eq!(game.sfen(), STARTPOS_SFEN);
    assert_eq!(game.moves().len(), 0);
    assert_eq!(game.history().len(), 1);
}

#[test]
fn a_partial_position_roots_a_game() {
    let partial =
        PartialPosition::from_usi("sfen 4k4/9/9/9/9/9/9/9/4K4 w - 7").expect("it parses");
    let game = Game::from_partial(partial).expect("it is a position");
    assert_eq!(game.sfen(), "4k4/9/9/9/9/9/9/9/4K4 w - 7");
    assert_eq!(game.search_board().key(), game.position().key());
}
