use rinsai::position::PartialPosition;
use rinsai::referee::game::{classify_repetition, Game};
use rinsai::referee::repetition::RepetitionIndex;
use rinsai::referee::types::{
    MoveError, Outcome, Ply, PromotionChoice, UsiMoveError, UsiPositionError,
};
use rinsai::shogi::{Color, IllegalMoveKind, Move, Piece, PieceKind, Square};

fn sq(file: u8, rank: u8) -> Square {
    Square::new(file, rank).expect("valid square")
}

type Slide = ((u8, u8), (u8, u8));

fn normal(from: (u8, u8), to: (u8, u8)) -> Move {
    Move::Normal {
        from: sq(from.0, from.1),
        to: sq(to.0, to.1),
        promote: false,
    }
}

fn game_from(sfen: &str) -> Game {
    Game::from_position(PartialPosition::from_usi(sfen).expect("valid sfen"))
        .expect("a root that a game can hold")
}

fn refused(args: &str) -> UsiPositionError {
    match Game::from_usi_position(args) {
        Ok(_) => panic!("accepted `{args}`"),
        Err(e) => e,
    }
}

fn sfens(game: &Game) -> Vec<String> {
    game.positions().iter().map(|p| p.to_sfen_owned()).collect()
}

/// The index that a game of these positions has.
fn index_of(game: &Game) -> RepetitionIndex {
    let mut index = RepetitionIndex::new(&game.positions()[0]);
    for position in &game.positions()[1..] {
        index.push(position);
    }
    index
}

#[test]
fn the_position_count_invariant_survives_arbitrary_play_and_undo() {
    let mut game = Game::startpos();
    assert_eq!(game.positions().len(), game.moves().len() + 1);
    game.play(normal((7, 7), (7, 6))).expect("legal");
    game.play(normal((3, 3), (3, 4))).expect("legal");
    assert_eq!(game.positions().len(), game.moves().len() + 1);
    game.undo();
    assert_eq!(game.positions().len(), game.moves().len() + 1);
    game.undo();
    assert_eq!(game.positions().len(), game.moves().len() + 1);
    assert!(
        game.undo().is_none(),
        "cannot undo past the initial position"
    );
    assert_eq!(game.positions().len(), 1);
}

#[test]
fn an_illegal_move_leaves_the_game_untouched() {
    let mut game = Game::startpos();
    game.play(normal((7, 7), (7, 6))).expect("legal");
    let before = game.clone();

    let err = game.play(normal((7, 6), (7, 5))).unwrap_err();
    assert!(matches!(err, MoveError::Illegal(_)), "got {err:?}");

    assert_eq!(sfens(&game), sfens(&before));
    assert_eq!(game.moves().len(), before.moves().len());
    assert_eq!(game.outcome(), before.outcome());
}

#[test]
fn undo_restores_the_repetition_index_exactly() {
    let mut game = Game::startpos();
    game.play(normal((7, 7), (7, 6))).expect("legal");
    assert_eq!(game.undo(), Some(normal((7, 7), (7, 6))));
    game.play(normal((7, 7), (7, 6))).expect("legal");
    game.undo();
    assert_eq!(index_of(&game).first_occurrence(), Some(0));

    let cycle = [
        ((2, 8), (3, 8)),
        ((8, 2), (7, 2)),
        ((3, 8), (2, 8)),
        ((7, 2), (8, 2)),
    ];
    for _ in 0..3 {
        assert_eq!(game.outcome(), None);
        for (from, to) in cycle {
            game.play(normal(from, to)).expect("rook shuffle is legal");
        }
    }
    assert_eq!(game.outcome(), Some(Outcome::Repetition));
    game.undo();
    assert_eq!(game.outcome(), None, "an undone ending is no ending");
}

#[test]
fn a_move_that_mates_ends_the_game() {
    let mut game = game_from("sfen 4k4/9/9/9/9/9/9/9/4R3K b G 1");
    game.play(Move::Drop {
        piece: Piece::new(PieceKind::Gold, Color::Black),
        to: sq(5, 2),
    })
    .expect("the drop is legal");
    assert_eq!(
        game.outcome(),
        Some(Outcome::Checkmate {
            winner: Color::Black
        })
    );
}

#[test]
fn playing_after_the_game_is_over_is_refused() {
    let mut game = Game::startpos();
    game.resign(Color::Black);
    assert_eq!(game.play(normal((7, 7), (7, 6))), Err(MoveError::GameOver));
}

#[test]
fn resigning_twice_keeps_the_first_result() {
    let mut game = Game::startpos();
    game.resign(Color::Black);
    game.resign(Color::White);
    assert_eq!(
        game.outcome(),
        Some(Outcome::Resignation {
            loser: Color::Black
        })
    );
}

#[test]
fn a_finished_game_offers_no_destinations() {
    let mut game = Game::startpos();
    assert_eq!(game.destinations(sq(7, 7)), vec![sq(7, 6)]);
    game.resign(Color::Black);
    assert!(game.destinations(sq(7, 7)).is_empty());
    assert!(game
        .drop_destinations(Piece::new(PieceKind::Pawn, Color::Black))
        .is_empty());
}

#[test]
fn promotion_is_optional_in_the_zone_forced_on_the_last_rank_and_absent_outside() {
    let game = game_from("sfen 4k4/9/4P4/9/9/9/9/9/4K4 b - 1");
    assert_eq!(
        game.promotion(sq(5, 3), sq(5, 2)),
        PromotionChoice::Optional,
        "5三歩 to 5二 is inside the promotion zone"
    );

    let game = game_from("sfen k8/4P4/9/9/9/9/9/9/4K4 b - 1");
    assert_eq!(
        game.promotion(sq(5, 2), sq(5, 1)),
        PromotionChoice::Forced,
        "a pawn reaching the last rank has nowhere to go unpromoted"
    );

    let game = game_from("sfen 4k4/9/9/9/4P4/9/9/9/4K4 b - 1");
    assert_eq!(
        game.promotion(sq(5, 5), sq(5, 4)),
        PromotionChoice::Never,
        "outside the zone there is nothing to choose"
    );
}

#[test]
fn a_forced_promotion_is_still_reachable_as_a_destination() {
    let game = game_from("sfen k8/4P4/9/9/9/9/9/9/4K4 b - 1");
    assert!(
        game.destinations(sq(5, 2)).contains(&sq(5, 1)),
        "the merged candidate set includes promote-only moves"
    );
}

#[test]
fn a_held_piece_is_dropped_where_the_rules_let_it() {
    let game = game_from("sfen 4k4/9/9/9/4P4/9/9/9/4K4 b P 1");
    let pawn = Piece::new(PieceKind::Pawn, Color::Black);
    let squares = game.drop_destinations(pawn);
    assert!(squares.contains(&sq(4, 4)));
    assert!(!squares.contains(&sq(5, 3)), "二歩");
    assert!(!squares.contains(&sq(4, 1)), "a pawn that could never move");
    assert!(
        game.drop_destinations(Piece::new(PieceKind::Gold, Color::Black))
            .is_empty(),
        "there is no gold in hand"
    );
}

#[test]
fn a_four_fold_repetition_is_a_draw() {
    let mut game = Game::startpos();
    let cycle = [
        ((2, 8), (3, 8)),
        ((8, 2), (7, 2)),
        ((3, 8), (2, 8)),
        ((7, 2), (8, 2)),
    ];
    for _ in 0..3 {
        for (from, to) in cycle {
            game.play(normal(from, to)).expect("rook shuffle is legal");
        }
    }
    assert_eq!(game.outcome(), Some(Outcome::Repetition));
}

#[test]
fn a_perpetual_check_loses_for_the_checking_side() {
    let mut game = game_from("sfen 4k4/9/9/9/9/9/9/9/K7R b - 1");
    game.play(normal((1, 9), (1, 1)))
        .expect("rook to 1a checks");
    let cycle = [
        ((5, 1), (5, 2)),
        ((1, 1), (1, 2)),
        ((5, 2), (5, 1)),
        ((1, 2), (1, 1)),
    ];
    for _ in 0..3 {
        for (from, to) in cycle {
            if game.outcome().is_some() {
                break;
            }
            game.play(normal(from, to)).expect("cycle move is legal");
        }
    }
    assert_eq!(
        game.outcome(),
        Some(Outcome::PerpetualCheck {
            loser: Color::Black
        }),
        "Black gave check on every move of the cycle"
    );
}

#[test]
fn a_cycle_with_one_quiet_move_is_a_draw_rather_than_a_perpetual_check() {
    let mut game = game_from("sfen 4k4/9/9/9/9/9/9/9/K7R b - 1");
    let cycle = [
        ((1, 9), (1, 1)),
        ((5, 1), (5, 2)),
        ((1, 1), (1, 9)),
        ((5, 2), (5, 1)),
    ];
    for _ in 0..3 {
        for (from, to) in cycle {
            game.play(normal(from, to)).expect("cycle move is legal");
        }
    }
    let checks: Vec<bool> = game.moves().iter().map(|ply| ply.gave_check).collect();
    assert_eq!(
        checks,
        [
            true, false, false, false, true, false, false, false, true, false, false, false
        ]
    );
    assert_eq!(game.outcome(), Some(Outcome::Repetition));
}

#[test]
fn a_window_in_which_both_sides_checked_throughout_is_still_a_draw() {
    let mut game = Game::startpos();
    let cycle = [
        ((2, 8), (3, 8)),
        ((8, 2), (7, 2)),
        ((3, 8), (2, 8)),
        ((7, 2), (8, 2)),
    ];
    for _ in 0..3 {
        for (from, to) in cycle {
            game.play(normal(from, to)).expect("rook shuffle is legal");
        }
    }
    assert_eq!(game.outcome(), Some(Outcome::Repetition));

    let mut moves: Vec<Ply> = game.moves().clone();
    for ply in &mut moves {
        ply.gave_check = true;
    }
    let first = index_of(&game).first_occurrence().expect("a position");
    assert_eq!(
        classify_repetition(game.positions(), &moves, first),
        Outcome::Repetition
    );
}

#[test]
fn a_perpetual_check_by_white_names_white_as_the_loser() {
    let mut game = game_from("sfen r7k/9/9/9/9/9/9/9/4K4 w - 1");
    game.play(normal((9, 1), (9, 9)))
        .expect("rook to 9i checks");
    let cycle = [
        ((5, 9), (5, 8)),
        ((9, 9), (9, 8)),
        ((5, 8), (5, 9)),
        ((9, 8), (9, 9)),
    ];
    for _ in 0..3 {
        for (from, to) in cycle {
            game.play(normal(from, to)).expect("cycle move is legal");
        }
    }
    assert_eq!(
        game.outcome(),
        Some(Outcome::PerpetualCheck {
            loser: Color::White
        }),
        "White gave check on every move of the cycle"
    );
    assert_eq!(index_of(&game).first_occurrence(), Some(1));
}

#[test]
fn the_fourth_occurrence_counts_however_the_position_was_reached() {
    let short_way: &[Slide] = &[
        ((2, 8), (1, 8)),
        ((8, 2), (9, 2)),
        ((1, 8), (2, 8)),
        ((9, 2), (8, 2)),
    ];
    let long_way: &[Slide] = &[
        ((2, 8), (3, 8)),
        ((8, 2), (7, 2)),
        ((3, 8), (4, 8)),
        ((7, 2), (6, 2)),
        ((4, 8), (2, 8)),
        ((6, 2), (8, 2)),
    ];
    let middle_way: &[Slide] = &[
        ((2, 8), (5, 8)),
        ((8, 2), (5, 2)),
        ((5, 8), (2, 8)),
        ((5, 2), (8, 2)),
    ];

    let mut game = Game::startpos();
    for (from, to) in short_way.iter().chain(long_way) {
        game.play(normal(*from, *to)).expect("a clear rook slide");
    }
    assert_eq!(game.outcome(), None, "three occurrences is not yet 千日手");

    for (from, to) in middle_way {
        game.play(normal(*from, *to)).expect("a clear rook slide");
    }
    assert_eq!(game.ply(), 14);
    assert!(
        game.moves().iter().all(|ply| !ply.gave_check),
        "no rook leaves its own rank"
    );
    assert_eq!(game.outcome(), Some(Outcome::Repetition));
}

#[test]
fn check_squares_names_the_attacked_king() {
    let mut game = game_from("sfen 4k4/9/9/9/9/9/9/9/K7R b - 1");
    assert!(game.check_squares().is_empty());
    game.play(normal((1, 9), (1, 1)))
        .expect("rook to 1a checks");
    assert_eq!(game.check_squares(), vec![sq(5, 1)]);
    assert!(game.in_check(), "White is to move and is checked");
}

#[test]
fn kifu_text_is_recorded_in_official_notation() {
    let mut game = Game::startpos();
    game.play(normal((7, 7), (7, 6))).expect("legal");
    assert_eq!(game.moves()[0].kifu, "▲７六歩");
    assert!(!game.moves()[0].gave_check);
    assert_eq!(game.last_move(), Some(normal((7, 7), (7, 6))));
}

#[test]
fn a_position_argument_replays_its_moves_onto_its_root() {
    let game = |args| match Game::from_usi_position(args) {
        Ok(game) => game,
        Err(e) => panic!("`{args}`: {}", e.describe()),
    };
    let played = game("startpos moves 7g7f 3c3d");
    assert_eq!(played.ply(), 2);
    assert_eq!(played.side_to_move(), Color::Black);

    assert_eq!(game("sfen 4k4/9/9/9/9/9/9/9/4K4 b - 1").ply(), 0);

    assert_eq!(game("  startpos   moves  7g7f ").ply(), 1);
}

#[test]
fn a_bad_root_and_a_bad_move_are_told_apart() {
    assert!(matches!(
        Game::from_usi_position(""),
        Err(UsiPositionError::Empty)
    ));
    assert!(matches!(
        Game::from_usi_position("sfen what"),
        Err(UsiPositionError::Root(_))
    ));
    assert!(matches!(
        Game::from_usi_position("startpos moves 7g7f xyzzy"),
        Err(UsiPositionError::Move {
            index: 1,
            source: UsiMoveError::Syntax(_),
            ..
        })
    ));
    assert!(matches!(
        Game::from_usi_position("startpos moves 7g7f 7g7f"),
        Err(UsiPositionError::Move {
            index: 1,
            source: UsiMoveError::Refused(MoveError::Illegal(_)),
            ..
        })
    ));
    assert!(matches!(
        Game::from_usi_position("sfen 4k4/9/9/9/4p4/9/9/9/4K4 b 99P 1"),
        Err(UsiPositionError::Unrepresentable(_))
    ));
}

#[test]
fn a_move_list_running_past_a_rule_decided_ending_is_refused() {
    let shuffle = "2h3h 8b7b 3h2h 7b8b 2h3h 8b7b 3h2h 7b8b 2h3h 8b7b 3h2h 7b8b";
    let ended = match Game::from_usi_position(&format!("startpos moves {shuffle}")) {
        Ok(game) => game,
        Err(e) => panic!("{}", e.describe()),
    };
    assert_eq!(ended.outcome(), Some(Outcome::Repetition));

    let err = refused(&format!("startpos moves {shuffle} 2h3h"));
    assert!(matches!(
        err,
        UsiPositionError::Move {
            index: 12,
            source: UsiMoveError::Refused(MoveError::GameOver),
            ..
        }
    ));
}

#[test]
fn play_usi_recolours_a_drop_to_the_side_to_move() {
    let mut game = game_from("sfen 4k4/9/9/9/9/9/9/9/4K4 w p 1");
    let mv = game.play_usi("P*5e").expect("legal drop");
    assert_eq!(
        mv,
        Move::Drop {
            piece: Piece::new(PieceKind::Pawn, Color::White),
            to: sq(5, 5),
        }
    );
}

#[test]
fn two_pawns_is_reported_with_its_own_reason() {
    let mut game = game_from("sfen 4k4/9/9/9/4P4/9/9/9/4K4 b P 1");
    let err = game
        .play(Move::Drop {
            piece: Piece::new(PieceKind::Pawn, Color::Black),
            to: sq(5, 3),
        })
        .unwrap_err();
    assert_eq!(err, MoveError::Illegal(IllegalMoveKind::TwoPawns));
    assert_eq!(err.describe(), "二歩です");
}

#[test]
fn each_rule_that_is_broken_is_named() {
    for (sfen, token, kind) in [
        (
            "sfen 4k4/9/9/9/9/9/9/9/4K4 b P 1",
            "P*4a",
            IllegalMoveKind::DropStuck,
        ),
        (
            "sfen k8/4P4/9/9/9/9/9/9/4K4 b - 1",
            "5b5a",
            IllegalMoveKind::NormalStuck,
        ),
        (
            "sfen 4r3k/9/9/9/9/9/9/4G4/4K4 b - 1",
            "5h4h",
            IllegalMoveKind::IgnoredCheck,
        ),
        (
            "sfen 4k4/9/9/9/9/9/9/9/4K4 b P 1",
            "5e5d",
            IllegalMoveKind::IncorrectMove,
        ),
    ] {
        let mut game = game_from(sfen);
        match game.play_usi(token) {
            Err(UsiMoveError::Refused(MoveError::Illegal(found))) => {
                assert_eq!(found, kind, "{sfen} {token}");
            }
            other => panic!("{sfen} {token}: {other:?}"),
        }
        assert_eq!(game.ply(), 0);
    }
}

#[test]
fn a_root_outside_the_standard_inventory_still_plays() {
    let mut game = game_from("sfen 4k4/9/9/9/9/9/9/9/4K4 b 9G 1");
    assert!(game.play_usi("G*5e").is_ok());
    assert_eq!(game.outcome(), None);
}

#[test]
fn every_refusal_of_an_argument_says_what_it_is() {
    assert_eq!(refused("").describe(), "empty position argument");
    assert_eq!(
        refused("startpos moves 7g7f 7g7f").describe(),
        "move 1 `7g7f`: refused: その手は指せません"
    );
    assert_eq!(
        refused("sfen 4k4/9/9/9/4p4/9/9/9/4K4 b 99P 1").describe(),
        "bad root: 100 Pawn on the board and in hand, past the 99 a game can hold"
    );
    assert!(refused("sfen what").describe().starts_with("bad root: "));
    assert!(refused("startpos moves 7g7f xyzzy")
        .describe()
        .starts_with("move 1 `xyzzy`: not a USI move: "));
}
