use rinsai::position::PartialPosition;
use rinsai::search::game::{Game, PositionError};
use shogi_core::{Color, Piece, PieceKind, Position, Square, ToUsi};
use shogi_usi_parser::FromUsi;

fn square(file: u8, rank: u8) -> Square {
    Square::new(file, rank).expect("a square on the board")
}

fn played(position: &Position) -> Vec<String> {
    position.moves().iter().map(|m| m.to_usi_owned()).collect()
}

#[test]
fn a_malformed_move_token_is_an_error_for_both() {
    assert!(Position::from_usi("startpos moves 7g7f zzzz").is_err());
    assert!(matches!(
        Game::from_usi_position("startpos moves 7g7f zzzz"),
        Err(PositionError::MoveSyntax { index: 2, .. })
    ));
}

#[test]
fn a_move_that_cannot_be_made_is_silently_dropped() {
    let position = Position::from_usi("startpos moves 7g7f 5e5d 3c3d")
        .expect("it reports success — that is the problem");
    assert_eq!(played(&position), ["7g7f", "3c3d"]);

    assert!(matches!(
        Game::from_usi_position("startpos moves 7g7f 5e5d 3c3d"),
        Err(PositionError::IllegalMove { index: 2, .. })
    ));
}

#[test]
fn a_move_by_the_wrong_side_is_silently_dropped() {
    let position = Position::from_usi("startpos moves 7g7f 7f7e").expect("it reports success");
    assert_eq!(played(&position), ["7g7f"]);

    assert!(matches!(
        Game::from_usi_position("startpos moves 7g7f 7f7e"),
        Err(PositionError::IllegalMove { index: 2, .. })
    ));
}

#[test]
fn nifu_is_accepted_and_applied() {
    const SFEN: &str = "sfen 4k4/9/9/9/9/9/4P4/9/4K4 b P 1 moves P*5e";
    let position = Position::from_usi(SFEN).expect("it reports success");

    let black_pawn = Piece::new(PieceKind::Pawn, Color::Black);
    assert_eq!(position.piece_at(square(5, 5)), Some(black_pawn));
    assert_eq!(position.piece_at(square(5, 7)), Some(black_pawn));

    assert!(matches!(
        Game::from_usi_position(SFEN),
        Err(PositionError::IllegalMove { index: 1, .. })
    ));
}

#[test]
fn moving_into_check_is_accepted_and_applied() {
    const SFEN: &str = "sfen 4k4/9/9/9/4r4/9/9/9/3K5 b - 1 moves 6i5i";
    let position = Position::from_usi(SFEN).expect("it reports success");

    assert_eq!(
        position.piece_at(square(5, 9)),
        Some(Piece::new(PieceKind::King, Color::Black))
    );
    assert_eq!(
        position.piece_at(square(5, 5)),
        Some(Piece::new(PieceKind::Rook, Color::White))
    );

    assert!(matches!(
        Game::from_usi_position(SFEN),
        Err(PositionError::IllegalMove { index: 1, .. })
    ));
}

#[test]
fn the_sfen_prefix_parser_is_sound_and_is_the_part_we_keep() {
    assert!(PartialPosition::from_usi("sfen not/a/real/sfen b - 1").is_err());
    assert!(PartialPosition::from_usi("startpos").is_ok());

    let good = "sfen l6nl/5+P1gk/2np1S3/p1p4Pp/3P2Sp1/1PPb2P1P/P5GS1/R8/LN4bKL w RGgsn5p 1";
    match Game::from_usi_position(good) {
        Ok(game) => assert_eq!(format!("sfen {}", game.sfen()), good),
        Err(e) => panic!("a real middlegame parses: {}", e.describe()),
    }
}
