use rinsai::position::PartialPosition;
use rinsai::referee::declaration::{
    can_declare, hand_points, in_zone, piece_points, required_points, DeclarationError,
};
use rinsai::referee::types::{illegal, side, MoveError, Outcome};
use rinsai::shogi::{Color, Hand, IllegalMoveKind, PieceKind, Square, ILLEGAL_KINDS};

fn position(sfen: &str) -> PartialPosition {
    PartialPosition::from_usi(sfen).expect("valid sfen")
}

const DECLARABLE_BLACK: &str = "sfen +R+R+B+BGGGGK/SSSS5/9/9/9/9/9/9/k8 b - 1";

const DECLARABLE_WHITE: &str = "sfen K8/9/9/9/9/9/9/sss6/+r+r+b+bggggk w - 1";

fn zone_census(position: &PartialPosition, color: Color) -> (u32, u32) {
    let mut pieces = 0;
    let mut points = 0;
    for square in (0..81).map(Square::at) {
        let Some(piece) = position.piece_at(square) else {
            continue;
        };
        if piece.color != color || !in_zone(square, color) || piece.kind == PieceKind::King {
            continue;
        }
        pieces += 1;
        points += piece_points(piece.kind);
    }
    (pieces, points)
}

#[test]
fn the_two_bars_together_ask_for_more_than_a_board_holds() {
    let start = position("sfen lnsgkgsnl/1r5b1/ppppppppp/9/9/9/PPPPPPPPP/1B5R1/LNSGKGSNL b - 1");
    let total: u32 = (0..81)
        .map(Square::at)
        .filter_map(|square| start.piece_at(square))
        .map(|piece| piece_points(piece.kind))
        .sum();
    assert_eq!(total, 54, "the pieces a game starts with");
    assert!(required_points(Color::Black) + required_points(Color::White) > total);
}

#[test]
fn each_side_declares_from_its_own_end_of_the_board() {
    assert_eq!(
        can_declare(&position(DECLARABLE_BLACK), Color::Black),
        Ok(())
    );
    assert_eq!(
        can_declare(&position(DECLARABLE_WHITE), Color::White),
        Ok(())
    );
}

#[test]
fn a_side_that_is_not_to_move_cannot_declare() {
    assert_eq!(
        can_declare(&position(DECLARABLE_BLACK), Color::White),
        Err(DeclarationError::NotToMove)
    );
    assert_eq!(
        can_declare(&position(DECLARABLE_WHITE), Color::Black),
        Err(DeclarationError::NotToMove)
    );
}

#[test]
fn a_king_that_has_not_entered_cannot_declare() {
    let start = PartialPosition::startpos();
    assert_eq!(
        can_declare(&start, Color::Black),
        Err(DeclarationError::KingOutsideZone)
    );
    let outside = position("sfen +R+R+B+BGGGG1/SSSS5/9/8K/9/9/9/9/k8 b - 1");
    assert_eq!(zone_census(&outside, Color::Black), (12, 28));
    assert_eq!(
        can_declare(&outside, Color::Black),
        Err(DeclarationError::KingOutsideZone)
    );
}

#[test]
fn a_checked_king_cannot_declare() {
    let checked = position("sfen +R+R+B+BGGGGK/SSSS5/9/9/9/9/9/9/k7r b - 1");
    assert_eq!(zone_census(&checked, Color::Black), (12, 28));
    assert_eq!(
        can_declare(&checked, Color::Black),
        Err(DeclarationError::InCheck)
    );
}

#[test]
fn the_king_does_not_count_towards_the_ten() {
    let nine = position("sfen +R+R+B+BGGGGK/8S/9/9/9/9/9/9/k8 b 3S 1");
    assert_eq!(zone_census(&nine, Color::Black), (9, 25));
    assert_eq!(
        can_declare(&nine, Color::Black),
        Err(DeclarationError::TooFewPieces { pieces: 9 })
    );

    let ten = position("sfen +R+R+B+BGGGGK/7SS/9/9/9/9/9/9/k8 b 2S 1");
    assert_eq!(zone_census(&ten, Color::Black), (10, 26));
    assert_eq!(can_declare(&ten, Color::Black), Ok(()));
}

#[test]
fn a_black_declaration_one_point_short_is_refused() {
    let short = position("sfen +R+R+B+BGGG1K/SSSS5/9/9/9/9/9/9/k8 b - 1");
    assert_eq!(zone_census(&short, Color::Black), (11, 27));
    assert_eq!(
        can_declare(&short, Color::Black),
        Err(DeclarationError::TooFewPoints {
            points: 27,
            required: 28,
        })
    );
}

#[test]
fn a_white_declaration_one_point_short_is_refused() {
    let short = position("sfen K8/9/9/9/9/9/9/ss7/+r+r+b+bggggk w - 1");
    assert_eq!(zone_census(&short, Color::White), (10, 26));
    assert_eq!(
        can_declare(&short, Color::White),
        Err(DeclarationError::TooFewPoints {
            points: 26,
            required: 27,
        })
    );
}

#[test]
fn a_dragon_and_a_horse_are_worth_what_a_rook_and_a_bishop_are() {
    let generals = position("sfen GGGG4K/SSSS5/NNLL5/9/9/9/9/9/k8 b - 1");
    assert_eq!(zone_census(&generals, Color::Black), (12, 12));
    assert_eq!(
        can_declare(&generals, Color::Black),
        Err(DeclarationError::TooFewPoints {
            points: 12,
            required: 28,
        })
    );
    assert_eq!(
        zone_census(&position(DECLARABLE_BLACK), Color::Black),
        (12, 28)
    );
}

#[test]
fn a_piece_outside_the_zone_counts_for_nothing() {
    let short_of_ten = position("sfen +R+R+B+BGGGGK/8S/9/9/SSS6/9/9/9/k8 b - 1");
    assert_eq!(zone_census(&short_of_ten, Color::Black), (9, 25));
    assert_eq!(
        can_declare(&short_of_ten, Color::Black),
        Err(DeclarationError::TooFewPieces { pieces: 9 })
    );

    let short_of_the_points = position("sfen +R+R+B+BGGGGK/7SS/9/9/SS7/9/9/9/k8 b - 1");
    assert_eq!(zone_census(&short_of_the_points, Color::Black), (10, 26));
    assert_eq!(
        can_declare(&short_of_the_points, Color::Black),
        Err(DeclarationError::TooFewPoints {
            points: 26,
            required: 28,
        })
    );
}

#[test]
fn a_major_in_hand_is_worth_five_like_one_on_the_board() {
    let held = position("sfen +R+R+BGGGGSK/SSS6/9/9/9/9/9/9/k8 b B 1");
    assert_eq!(zone_census(&held, Color::Black), (11, 23));
    assert_eq!(can_declare(&held, Color::Black), Ok(()));

    let gold = position("sfen +R+R+BGGGGSK/SSS6/9/9/9/9/9/9/k8 b G 1");
    assert_eq!(
        can_declare(&gold, Color::Black),
        Err(DeclarationError::TooFewPoints {
            points: 24,
            required: 28,
        })
    );
}

#[test]
fn the_refusal_is_the_first_condition_the_rule_reaches() {
    let checked = position("sfen 8K/9/9/9/9/9/9/9/k7r b - 1");
    assert_eq!(zone_census(&checked, Color::Black), (0, 0));
    assert_eq!(
        can_declare(&checked, Color::Black),
        Err(DeclarationError::InCheck)
    );

    let outside = position("sfen 9/9/9/8K/9/9/9/9/k7r b - 1");
    assert_eq!(
        can_declare(&outside, Color::Black),
        Err(DeclarationError::KingOutsideZone)
    );
}

#[test]
fn every_refusal_reads_a_sentence_of_its_own() {
    let mut seen = std::collections::HashSet::new();
    for refusal in [
        DeclarationError::NotToMove,
        DeclarationError::KingOutsideZone,
        DeclarationError::InCheck,
        DeclarationError::TooFewPieces { pieces: 9 },
        DeclarationError::TooFewPoints {
            points: 27,
            required: 28,
        },
    ] {
        let sentence = match refusal {
            DeclarationError::NotToMove => "手番ではありません",
            DeclarationError::KingOutsideZone => "玉が敵陣に入っていません",
            DeclarationError::InCheck => "王手が掛かっています",
            DeclarationError::TooFewPieces { .. } => "敵陣の駒が玉を除いて9枚しかありません",
            DeclarationError::TooFewPoints { .. } => "持点が27点で、28点に足りません",
        };
        assert_eq!(refusal.describe(), sentence, "{refusal:?}");
        assert!(seen.insert(sentence), "{refusal:?} repeats {sentence:?}");
    }
}

#[test]
fn a_hand_is_worth_its_pieces() {
    let mut hand = Hand::new();
    assert_eq!(hand_points(&hand), 0);
    hand.pawn = 3;
    hand.gold = 1;
    hand.bishop = 1;
    hand.rook = 2;
    assert_eq!(hand_points(&hand), 3 + 1 + 5 + 10);
}

#[test]
fn a_perpetual_check_loss_names_the_checking_side_as_the_loser() {
    let outcome = Outcome::PerpetualCheck {
        loser: Color::Black,
    };
    assert_eq!(outcome.describe(), "先手の負け（連続王手の千日手）");
}

#[test]
fn every_outcome_reads_as_a_sentence_of_its_own() {
    let all = [
        Outcome::Checkmate {
            winner: Color::Black,
        },
        Outcome::Repetition,
        Outcome::PerpetualCheck {
            loser: Color::Black,
        },
        Outcome::Resignation {
            loser: Color::Black,
        },
        Outcome::FlagFall {
            loser: Color::Black,
        },
        Outcome::IllegalMove {
            loser: Color::Black,
            kind: IllegalMoveKind::TwoPawns,
        },
        Outcome::Declaration {
            winner: Color::Black,
        },
        Outcome::MaxMoves,
        Outcome::Abandoned {
            loser: Color::Black,
        },
    ];
    let mut seen: Vec<String> = Vec::new();
    for outcome in all {
        let sentence = outcome.describe();
        assert!(!sentence.is_empty(), "{outcome:?} says nothing");
        assert!(
            !seen.contains(&sentence),
            "{outcome:?} repeats {sentence:?}"
        );
        seen.push(sentence);
    }
    assert_eq!(seen[0], "先手の勝ち（詰み）");
    assert_eq!(seen[1], "千日手");
    assert_eq!(seen[7], "引き分け（最大手数）");
}

#[test]
fn an_illegal_move_names_both_the_loser_and_the_rule() {
    let outcome = Outcome::IllegalMove {
        loser: Color::White,
        kind: IllegalMoveKind::DropPawnMate,
    };
    let sentence = outcome.describe();
    assert!(sentence.contains(side(Color::White)), "{sentence}");
    assert!(sentence.contains("後手"), "{sentence}");
    assert!(
        sentence.contains(illegal(IllegalMoveKind::DropPawnMate)),
        "{sentence}"
    );
}

#[test]
fn every_illegal_move_kind_has_a_message_of_its_own() {
    let mut seen: Vec<&str> = Vec::new();
    for raw in 1..=u8::MAX {
        let Some(known) = shogi_core::IllegalMoveKind::from_u8(raw) else {
            continue;
        };
        let kind = ILLEGAL_KINDS[known as usize];
        let message = illegal(kind);
        assert!(!message.is_empty(), "{kind:?} says nothing");
        assert!(!seen.contains(&message), "{kind:?} repeats {message:?}");
        seen.push(message);
    }
    assert_eq!(seen.len(), 7);
}

#[test]
fn a_finished_game_reads_the_same_whether_the_game_or_the_kind_says_so() {
    assert_eq!(
        MoveError::GameOver.describe(),
        illegal(IllegalMoveKind::GameFinished)
    );
}
