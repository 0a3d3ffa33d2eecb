use std::ops::Range;

use rinsai::board::Board;
use rinsai::position::PartialPosition;
use rinsai::search::moves::{is_legal, Killers, MoveBuf, MAX_LEGAL_MOVES};
use rinsai::search::ordering::{capture_key, HistoryTable};
use rinsai::search::score::MAX_PLY;
use rinsai::shogi::{Color, Move, Piece, PieceKind, Square, COLORS, HAND_KINDS};

fn position(sfen: &str) -> Board {
    Board::new(&PartialPosition::from_usi(sfen).expect("test SFEN parses"))
}

fn startpos() -> Board {
    Board::new(&PartialPosition::startpos())
}

fn agrees_with_oracle(position: &Board) {
    let legal = position.legal_moves();
    for mv in &legal {
        assert!(is_legal(position, *mv), "rejected a generated move {mv:?}");
    }
    for from in (0..81).map(Square::at) {
        for to in (0..81).map(Square::at) {
            for promote in [false, true] {
                let mv = Move::Normal { from, to, promote };
                assert_eq!(
                    is_legal(position, mv),
                    legal.contains(&mv),
                    "disagreed with the oracle on {mv:?}"
                );
            }
        }
    }
    for color in COLORS {
        for kind in HAND_KINDS {
            for to in (0..81).map(Square::at) {
                let mv = Move::Drop {
                    piece: Piece::new(kind, color),
                    to,
                };
                assert_eq!(
                    is_legal(position, mv),
                    legal.contains(&mv),
                    "disagreed with the oracle on {mv:?}"
                );
            }
        }
    }
}

#[test]
fn agrees_with_the_oracle_at_the_initial_position() {
    agrees_with_oracle(&startpos());
}

#[test]
fn agrees_with_the_oracle_in_a_drop_heavy_position() {
    agrees_with_oracle(&position(
        "sfen l6nl/5+P1gk/2np1S3/p1p4Pp/3P2Sp1/1PPb2P1P/P5GS1/R8/LN4bKL w RGgsn5p 1",
    ));
}

#[test]
fn agrees_with_the_oracle_while_in_check() {
    let position = position("sfen 4k4/9/4+R4/9/9/9/9/9/4K4 w - 1");
    assert!(position.in_check());
    agrees_with_oracle(&position);
}

#[test]
fn a_compulsory_promotion_cannot_be_declined() {
    let position = position("sfen 8k/4P4/9/9/9/9/9/9/4K4 b - 1");
    let from = Square::new(5, 2).expect("5b");
    let to = Square::new(5, 1).expect("5a");

    assert!(is_legal(
        &position,
        Move::Normal {
            from,
            to,
            promote: true
        }
    ));
    assert!(!is_legal(
        &position,
        Move::Normal {
            from,
            to,
            promote: false
        }
    ));
}

fn slice(buf: &MoveBuf, range: Range<usize>) -> Vec<Move> {
    range.map(|i| buf.get(i)).collect()
}

fn same_moves(left: &[Move], right: &[Move]) {
    let key = |mv: &Move| format!("{mv:?}");
    let mut left: Vec<String> = left.iter().map(key).collect();
    let mut right: Vec<String> = right.iter().map(key).collect();
    left.sort();
    right.sort();
    assert_eq!(left, right);
}

#[test]
fn the_buffer_holds_exactly_the_legal_moves() {
    for sfen in [
        "sfen lnsgkgsnl/1r5b1/ppppppppp/9/9/9/PPPPPPPPP/1B5R1/LNSGKGSNL b - 1",
        "sfen l6nl/5+P1gk/2np1S3/p1p4Pp/3P2Sp1/1PPb2P1P/P5GS1/R8/LN4bKL w RGgsn5p 1",
        "sfen 4k4/9/4+R4/9/9/9/9/9/4K4 w - 1",
    ] {
        let board = position(sfen);
        let mut buf = MoveBuf::new();
        let base = buf.generate(&board);
        same_moves(&slice(&buf, base..buf.len()), &board.legal_moves());
    }
}

#[test]
fn a_ply_does_not_disturb_the_ply_above_it() {
    let mut buf = MoveBuf::new();
    let mut board = startpos();

    let root_base = buf.generate(&board);
    assert_eq!(root_base, 0);
    let root_end = buf.len();
    let root = slice(&buf, root_base..root_end);
    assert!(!root.is_empty(), "the initial position has legal moves");

    board.do_move(root[0]);
    let child_base = buf.generate(&board);
    assert_eq!(
        child_base, root_end,
        "the child started on top of the parent"
    );
    same_moves(&slice(&buf, child_base..buf.len()), &board.legal_moves());
    assert_eq!(slice(&buf, root_base..root_end), root, "the parent moved");

    buf.truncate(child_base);
    assert_eq!(buf.len(), root_end);
    assert_eq!(slice(&buf, root_base..root_end), root);
}

fn captures_agree_with_the_oracle(board: &Board) {
    let mut buf = MoveBuf::new();
    let base = buf.generate_captures(board);
    let oracle: Vec<Move> = board
        .legal_moves()
        .into_iter()
        .filter(|mv| board.piece_at(mv.to()).is_some())
        .collect();
    same_moves(&slice(&buf, base..buf.len()), &oracle);
}

#[test]
fn the_capture_filter_is_exactly_the_captures() {
    for sfen in [
        "sfen lnsgkgsnl/1r5b1/ppppppppp/9/9/9/PPPPPPPPP/1B5R1/LNSGKGSNL b - 1",
        "sfen l6nl/5+P1gk/2np1S3/p1p4Pp/3P2Sp1/1PPb2P1P/P5GS1/R8/LN4bKL w RGgsn5p 1",
        "sfen 4k4/9/4+R4/9/9/9/9/9/4K4 w - 1",
        "sfen 4k4/9/6p2/6S2/9/9/9/9/4K4 b - 1",
        "sfen 4k4/9/9/9/9/9/9/9/4K4 b - 1",
    ] {
        captures_agree_with_the_oracle(&position(sfen));
    }
}

#[test]
fn an_optional_promotion_capture_is_generated_both_ways() {
    let board = position("sfen 4k4/9/6p2/6S2/9/9/9/9/4K4 b - 1");
    let mut buf = MoveBuf::new();
    let base = buf.generate_captures(&board);
    let generated = slice(&buf, base..buf.len());

    let from = Square::new(3, 4).expect("3d");
    let to = Square::new(3, 3).expect("3c");
    for promote in [false, true] {
        let mv = Move::Normal { from, to, promote };
        assert!(generated.contains(&mv), "{mv:?} was not generated");
    }
    assert_eq!(generated.len(), 2, "{generated:?}");
}

#[test]
fn a_compulsory_promotion_capture_is_generated_once_promoting() {
    let board = position("sfen 6p1k/6P2/9/9/9/9/9/9/4K4 b - 1");
    let mut buf = MoveBuf::new();
    let base = buf.generate_captures(&board);
    let generated = slice(&buf, base..buf.len());

    let from = Square::new(3, 2).expect("3b");
    let to = Square::new(3, 1).expect("3a");
    assert!(generated.contains(&Move::Normal {
        from,
        to,
        promote: true
    }));
    assert!(!generated.contains(&Move::Normal {
        from,
        to,
        promote: false
    }));
    captures_agree_with_the_oracle(&board);
}

#[test]
fn a_capture_generation_does_not_disturb_the_ply_above_it() {
    let mut buf = MoveBuf::new();
    let mut board =
        position("sfen l6nl/5+P1gk/2np1S3/p1p4Pp/3P2Sp1/1PPb2P1P/P5GS1/R8/LN4bKL w RGgsn5p 1");

    let parent_base = buf.generate(&board);
    let parent_end = buf.len();
    let parent = slice(&buf, parent_base..parent_end);

    board.do_move(parent[0]);
    let child_base = buf.generate_captures(&board);
    assert_eq!(
        child_base, parent_end,
        "the child started on top of the parent"
    );
    assert_eq!(
        slice(&buf, parent_base..parent_end),
        parent,
        "the parent moved"
    );

    buf.truncate(child_base);
    assert_eq!(buf.len(), parent_end);
    assert_eq!(slice(&buf, parent_base..parent_end), parent);
}

fn ordering_fixture() -> Board {
    let board = position("sfen 4k4/9/9/1p1r1b1s1/2S1S1S2/9/9/9/4K4 b - 1");
    let mut buf = MoveBuf::new();
    let base = buf.generate(&board);
    let generated = slice(&buf, base..buf.len());
    let keys: Vec<_> = generated
        .iter()
        .filter_map(|mv| capture_key(&board, *mv))
        .collect();

    assert!(
        keys.iter().any(|key| *key != keys[0]),
        "the fixture holds no two captures this ordering can separate"
    );
    assert!(
        generated.len() - keys.len() >= 2,
        "the fixture holds fewer than two moves that take nothing"
    );
    assert!(
        !keys.is_sorted_by(|a, b| a >= b),
        "the fixture generates its captures best-first already: {keys:?}"
    );
    board
}

#[test]
fn ordering_puts_every_capture_ahead_of_every_quiet_move() {
    let board = ordering_fixture();
    let mut buf = MoveBuf::new();
    let base = buf.generate(&board);
    let generated = slice(&buf, base..buf.len());

    buf.order_captures(base, &board);
    let ordered = slice(&buf, base..buf.len());
    same_moves(&ordered, &generated);

    let captures = ordered.partition_point(|mv| capture_key(&board, *mv).is_some());
    for (i, mv) in ordered.iter().enumerate() {
        assert_eq!(
            capture_key(&board, *mv).is_some(),
            i < captures,
            "{mv:?} came out at {i} of {captures} captures"
        );
    }
}

#[test]
fn the_captures_come_out_best_first() {
    let board = ordering_fixture();
    let mut buf = MoveBuf::new();
    let base = buf.generate(&board);
    buf.order_captures(base, &board);
    let keys: Vec<_> = (base..buf.len())
        .filter_map(|i| capture_key(&board, buf.get(i)))
        .collect();
    assert!(keys.is_sorted_by(|a, b| a >= b), "{keys:?}");
}

#[test]
fn ordering_past_the_front_leaves_the_front_where_it_is() {
    let board = ordering_fixture();
    let mut buf = MoveBuf::new();
    let base = buf.generate(&board);
    let quiet = (base..buf.len())
        .find(|&i| capture_key(&board, buf.get(i)).is_none())
        .expect("the fixture holds a move that takes nothing");
    buf.swap(base, quiet);
    let front = buf.get(base);

    buf.order_captures(base + 1, &board);
    assert_eq!(buf.get(base), front);
    assert!(
        capture_key(&board, buf.get(base + 1)).is_some(),
        "the captures did not close up behind the front"
    );
}

#[test]
fn moves_of_equal_rank_keep_their_generated_order() {
    let board = ordering_fixture();
    let mut buf = MoveBuf::new();
    let base = buf.generate(&board);
    let generated = slice(&buf, base..buf.len());
    buf.order_captures(base, &board);
    let ordered = slice(&buf, base..buf.len());

    let generated_index = |mv: &Move| {
        generated
            .iter()
            .position(|g| g == mv)
            .expect("was generated")
    };
    for (i, left) in ordered.iter().enumerate() {
        for right in &ordered[i + 1..] {
            if capture_key(&board, *left) == capture_key(&board, *right) {
                assert!(
                    generated_index(left) < generated_index(right),
                    "{left:?} and {right:?} rank the same and came out swapped"
                );
            }
        }
    }
}

fn killers(pair: [Option<Move>; 2]) -> Killers {
    Killers {
        newest: pair[0],
        older: pair[1],
    }
}

fn killer_fixture() -> (Board, [Option<Move>; 2], Vec<Move>) {
    let board = ordering_fixture();
    let mut buf = MoveBuf::new();
    let base = buf.generate(&board);
    let quiets_from = buf.order_captures(base, &board);
    let quiets = slice(&buf, quiets_from..buf.len());
    assert!(
        quiets.len() >= 4,
        "the fixture holds {} moves that take nothing, too few to pick two from the back of",
        quiets.len()
    );
    let pair = [
        Some(quiets[quiets.len() - 1]),
        Some(quiets[quiets.len() - 2]),
    ];
    assert!(
        pair[0] != Some(quiets[0]) && pair[1] != Some(quiets[1]),
        "a killer is already where ordering would leave it: {pair:?}"
    );
    (board, pair, quiets)
}

#[test]
fn killers_come_out_behind_the_captures_and_ahead_of_the_other_quiets() {
    let (board, pair, _) = killer_fixture();
    let mut buf = MoveBuf::new();
    let base = buf.generate(&board);
    let generated = slice(&buf, base..buf.len());

    let quiets_from = buf.order_captures(base, &board);
    buf.order_killers(quiets_from, killers(pair));
    same_moves(&slice(&buf, base..buf.len()), &generated);

    assert!(
        capture_key(&board, buf.get(quiets_from - 1)).is_some(),
        "the move ahead of the killers takes nothing, so they displaced a capture"
    );
    assert_eq!(buf.get(quiets_from), pair[0].expect("picked above"));
    assert_eq!(buf.get(quiets_from + 1), pair[1].expect("picked above"));
}

#[test]
fn a_killer_this_node_cannot_play_moves_nothing() {
    let (board, pair, _) = killer_fixture();
    let absent = Move::Drop {
        piece: Piece::new(PieceKind::Pawn, Color::Black),
        to: Square::new(5, 6).expect("5f"),
    };
    let mut buf = MoveBuf::new();
    let base = buf.generate(&board);
    assert!(
        !slice(&buf, base..buf.len()).contains(&absent),
        "the fixture can play {absent:?} after all"
    );

    let quiets_from = buf.order_captures(base, &board);
    let before = slice(&buf, base..buf.len());
    buf.order_killers(quiets_from, killers([Some(absent), None]));
    assert_eq!(slice(&buf, base..buf.len()), before);

    buf.order_killers(quiets_from, killers([Some(absent), pair[0]]));
    assert_eq!(buf.get(quiets_from), pair[0].expect("picked above"));
}

#[test]
fn the_quiet_moves_a_killer_passes_keep_their_generated_order() {
    let (board, pair, quiets) = killer_fixture();
    let mut buf = MoveBuf::new();
    let base = buf.generate(&board);
    let quiets_from = buf.order_captures(base, &board);
    buf.order_killers(quiets_from, killers(pair));

    let rest: Vec<Move> = slice(&buf, quiets_from + 2..buf.len());
    let expected: Vec<Move> = quiets
        .iter()
        .copied()
        .filter(|mv| !pair.contains(&Some(*mv)))
        .collect();
    assert_eq!(rest, expected);
}

#[test]
fn a_drop_by_the_wrong_colour_is_rejected() {
    let position = position("sfen 4k4/9/9/9/9/9/9/9/4K4 b Pp 1");
    let to = Square::new(5, 5).expect("5e");

    assert!(is_legal(
        &position,
        Move::Drop {
            piece: Piece::new(PieceKind::Pawn, Color::Black),
            to
        }
    ));
    assert!(!is_legal(
        &position,
        Move::Drop {
            piece: Piece::new(PieceKind::Pawn, Color::White),
            to
        }
    ));
}

#[test]
fn a_known_best_move_is_arranged_first() {
    let (board, pair, quiets) = killer_fixture();
    let mut buf = MoveBuf::new();
    let base = buf.generate(&board);
    let generated = slice(&buf, base..buf.len());
    let best = quiets[1];
    buf.arrange(base, &board, Some(best), killers(pair), &HistoryTable::new());
    same_moves(&slice(&buf, base..buf.len()), &generated);
    assert_eq!(buf.get(base), best);
    assert!(capture_key(&board, buf.get(base + 1)).is_some());
}

#[test]
fn what_has_refuted_before_is_tried_before_the_rest() {
    let (board, pair, _) = killer_fixture();
    let mut history = HistoryTable::new();
    let mut buf = MoveBuf::new();
    let base = buf.generate(&board);
    let generated = slice(&buf, base..buf.len());
    let quiets_from = buf.order_captures(base, &board);
    let captures = slice(&buf, base..quiets_from);
    let others_from = buf.order_killers(quiets_from, killers(pair));
    let refuting = slice(&buf, quiets_from..others_from);
    let before = slice(&buf, others_from..buf.len());
    let (some, most) = (before[before.len() - 2], before[before.len() - 1]);
    history.record(&board, some, 2);
    history.record(&board, most, 5);
    buf.order_history(others_from, &board, &history);

    same_moves(&slice(&buf, base..buf.len()), &generated);
    assert_eq!(slice(&buf, base..quiets_from), captures);
    assert_eq!(slice(&buf, quiets_from..others_from), refuting);
    let credited: Vec<Move> = slice(&buf, others_from..buf.len());
    let mut expected = before.clone();
    expected.sort_by_key(|&mv| -history.value(&board, mv));
    assert_eq!(credited, expected, "not by history, or not stably");
    assert_ne!(credited, before, "the fixture orders nothing");
    assert_eq!(credited[0], most);
}

#[test]
fn a_board_takes_its_moves_back() {
    let mut board = startpos();
    let key = board.key();
    let moves = board.legal_moves();
    for mv in &moves {
        let undo = board.do_move(*mv);
        assert_eq!(board.side_to_move(), Color::White);
        assert_ne!(board.key(), key);
        board.undo_move(*mv, undo);
        assert_eq!(board.key(), key);
        assert_eq!(board.legal_moves(), moves);
    }
}

#[test]
fn the_buffer_reserves_a_whole_search_up_front() {
    let buf = MoveBuf::new();
    assert!(buf.capacity() >= MAX_LEGAL_MOVES * MAX_PLY);
    assert_eq!(MoveBuf::default().capacity(), buf.capacity());
}

#[test]
fn dropping_from_past_the_end_drops_nothing() {
    let mut buf = MoveBuf::new();
    let _ = buf.generate(&startpos());
    assert_eq!(buf.len(), 30);
    buf.truncate(31);
    assert_eq!(buf.len(), 30);
    buf.truncate(30);
    assert_eq!(buf.len(), 30);
    buf.truncate(2);
    assert_eq!(buf.len(), 2);
}
