use rinsai::board::Board;
use rinsai::position::PartialPosition;
use rinsai::referee;
use rinsai::search::declaration::can_declare;
use rinsai::search::game::Game;
use rinsai::shogi::{Color, Square};

const FIXTURES: &[(&str, bool, &str)] = &[
    (
        "sfen +R+R+B+BGGGGK/SSSS5/9/9/9/9/9/9/k8 b - 1",
        true,
        "Black, twelve pieces in the zone, exactly the 28 Black needs",
    ),
    (
        "sfen +R+R+B+BGGG1K/SSSS5/9/9/9/9/9/9/k8 b - 1",
        false,
        "the same board at 27 — which is White's bar, not Black's",
    ),
    (
        "sfen K8/9/9/9/9/9/9/sss6/+r+r+b+bggggk w - 1",
        true,
        "White, eleven pieces, exactly the 27 White needs",
    ),
    (
        "sfen K8/9/9/9/9/9/9/ss7/+r+r+b+bggggk w - 1",
        false,
        "the same board at 26",
    ),
    (
        "sfen +R+R+B+BGGGGK/S8/9/9/9/9/9/9/k8 b 3S 1",
        false,
        "nine pieces in the zone; the king may not make it ten",
    ),
    (
        "sfen +R+R+B+BGGGGK/S7S/9/9/9/9/9/9/k8 b 2S 1",
        true,
        "ten pieces, and the two silvers in hand carry it to 28",
    ),
    (
        "sfen RRBBGGGGK/SSSS5/9/9/9/9/9/9/k8 b - 1",
        true,
        "plain 飛角 score what 龍馬 do",
    ),
    (
        "sfen GGGG4K/SSSS5/NNLL5/9/9/9/9/9/k8 b - 1",
        false,
        "twelve pieces and no major: twelve points",
    ),
    (
        "sfen +P+P+P+P+P+P+P+PK/+P+P7/9/9/9/9/9/9/k8 b - 1",
        false,
        "ten と金 are ten points, not fifty — a promoted 歩 is not a major",
    ),
    (
        "sfen +R+R+BGGGGSK/SSS6/9/9/9/9/9/9/k8 b B 1",
        true,
        "23 on the board and a bishop in hand — a major in hand is five",
    ),
    (
        "sfen +R+R+BGGGGSK/SSS6/9/9/9/9/9/9/k8 b P 1",
        false,
        "the same board holding a pawn instead",
    ),
    (
        "sfen +R+R+B+BGGGGK/S8/9/9/SSS6/9/9/9/k8 b - 1",
        false,
        "twelve pieces, but three of them behind the zone",
    ),
    (
        "sfen +R+R+B+BGGGGK/S7S/9/9/SS7/9/9/9/k8 b - 1",
        false,
        "28 points only if the two behind the zone are counted",
    ),
    (
        "sfen +R+R+B+BGGG1K/SSSS5/4g4/9/9/9/9/9/4k4 b - 1",
        false,
        "27, and the enemy gold standing in the zone is not Black's to count",
    ),
    (
        "sfen +R+R+B+BGGGG1/SSSS5/9/8K/9/9/9/9/k8 b - 1",
        false,
        "the declarable count, with the king a rank short of the zone",
    ),
    (
        "sfen +R+R+B+BGGGGK/SSS6/S8/9/9/9/9/9/k8 b - 1",
        true,
        "the twelfth piece stands on the third rank, and 28 needs it",
    ),
    (
        "sfen +R+R+B+BGGGG1/SSSS5/8K/9/9/9/9/9/k8 b - 1",
        true,
        "the king itself stands on the third rank",
    ),
    (
        "sfen K8/9/9/9/9/9/s8/sss6/+r+r+b+bggg1k w - 1",
        true,
        "White's eleventh piece on its own third rank, and 27 needs it",
    ),
    (
        "sfen K8/9/9/9/9/9/8k/ssss5/+r+r+b+bgggg1 w - 1",
        true,
        "White's king on its own third rank",
    ),
    (
        "sfen K8/9/9/9/9/8k/9/ssss5/+r+r+b+bgggg1 w - 1",
        false,
        "the same, with White's king a rank short of its own zone",
    ),
    (
        "sfen +R+R+B+BGGGGl/SSSS5/8K/9/9/9/9/9/k8 b - 1",
        false,
        "28 in the zone, and a lance bearing up the file the king entered on",
    ),
    (
        "sfen +R+R+B+BGGGGK/SSSS4+p/9/9/9/9/9/9/k8 b - 1",
        false,
        "28 in the zone, and a と金 beside the king",
    ),
    (
        "sfen lnsgkgsnl/1r5b1/ppppppppp/9/9/9/PPPPPPPPP/1B5R1/LNSGKGSNL b - 1",
        false,
        "a game that has not started",
    ),
];

fn board(sfen: &str) -> Board {
    match Game::from_partial(partial(sfen)) {
        Ok(game) => game.search_board(),
        Err(e) => panic!("{sfen}: {}", e.describe()),
    }
}

fn partial(sfen: &str) -> PartialPosition {
    PartialPosition::from_usi(sfen).expect("valid sfen")
}

#[test]
fn the_fixtures_answer_what_they_claim() {
    for &(sfen, expected, why) in FIXTURES {
        assert_eq!(can_declare(&board(sfen)), expected, "{why}: {sfen}");
    }
}

#[test]
fn no_fixture_leaves_the_idle_side_in_check() {
    for &(sfen, _, why) in FIXTURES {
        let position = partial(sfen);
        let idle = position.side_to_move().flip();
        assert!(
            !referee::moves::in_check(&position, idle),
            "{why}: {sfen} — {idle:?} is in check and not to move"
        );
    }
}

#[test]
fn the_fixtures_decide_in_both_directions() {
    for color in [Color::Black, Color::White] {
        for wanted in [true, false] {
            assert!(
                FIXTURES.iter().any(|&(sfen, expected, _)| {
                    expected == wanted && partial(sfen).side_to_move() == color
                }),
                "no fixture has {color:?} answered {wanted}"
            );
        }
        let on_the_third_rank = FIXTURES.iter().filter(|&&(sfen, _, _)| {
            let position = partial(sfen);
            position.side_to_move() == color
                && (0..81).map(Square::at).any(|square| {
                    position.piece_at(square).is_some_and(|p| p.color == color)
                        && square.relative_rank(color) == 3
                })
        });
        assert!(
            on_the_third_rank.count() >= 2,
            "{color:?} never crosses its own zone boundary"
        );
    }
}

#[test]
fn the_two_implementations_agree() {
    for &(sfen, _, why) in FIXTURES {
        let position = partial(sfen);
        let refereed = referee::declaration::can_declare(&position, position.side_to_move());
        let searched = can_declare(&board(sfen));
        assert_eq!(refereed.is_ok(), searched, "{why}: {sfen} — {refereed:?}");
    }
}

#[test]
fn the_two_implementations_differ_over_a_pawn_that_cannot_move() {
    let sfen = "sfen +R+R+B+BGGGKn/SSSSG4/9/9/9/9/9/9/k7p b - 1";
    assert!(!board(sfen).in_check());
    assert!(can_declare(&board(sfen)));
    assert_eq!(
        referee::declaration::can_declare(&partial(sfen), Color::Black),
        Err(referee::declaration::DeclarationError::InCheck)
    );
}
