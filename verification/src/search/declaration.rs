//! The declaration rule, as a search asks for it: of the side to move.

use vstd::prelude::*;

use crate::board::{in_check, Board};
use crate::diagram::Diagram;
use crate::referee::declaration::{
    declaration_fault, hand_points, in_zone, king_in_camp, piece_points, pieces_in_camp, points_for,
    points_in_camp, points_needed, required_points, DeclarationError, REQUIRED_PIECES,
};
use crate::referee::moves::attacked;
use crate::shogi::{Color, PieceKind, Square};

verus! {

/// Whether the side to move may declare: its king stands in the opponent's camp
/// and is not in check, with ten more of its pieces and enough points.
pub open spec fn declarable(d: Diagram) -> bool {
    &&& king_in_camp(d, d.side)
    &&& !in_check(d)
    &&& pieces_in_camp(d.squares, d.side, 81) >= REQUIRED_PIECES
    &&& points_for(d, d.side) >= points_needed(d.side)
}

/// Whether the side to move may declare.
pub fn can_declare(board: &Board) -> (r: bool)
    ensures
        r == declarable(board@),
{
    let us = board.side_to_move();
    let entered = match board.king_square(us) {
        Some(square) => in_zone(square, us),
        None => false,
    };
    if !entered {
        return false;
    }
    if board.in_check() {
        return false;
    }
    let mut pieces: u32 = 0;
    let mut points: u32 = 0;
    let mut i: usize = 0;
    while i < 81
        invariant
            i <= 81,
            us == board@.side,
            pieces == pieces_in_camp(board@.squares, us, i as int),
            points == points_in_camp(board@.squares, us, i as int),
            pieces <= i,
            points <= 5 * i,
        decreases 81 - i,
    {
        let square = Square::at(i);
        if let Some(piece) = board.piece_at(square) {
            if piece.color == us && piece.kind != PieceKind::King && in_zone(square, us) {
                pieces += 1;
                points += piece_points(piece.kind);
            }
        }
        i += 1;
    }
    if pieces < REQUIRED_PIECES {
        return false;
    }
    let points: u32 = points + hand_points(&board.hand(us));
    points >= required_points(us)
}

/// A declaration that a search may make is one that the referee grants, and the
/// other way round, where the two agree on whether the king is attacked. They
/// ask two libraries about that, and it is all that they can differ in. The two
/// libraries do differ on boards that no game reaches, such as one with a pawn on
/// the rank that it cannot move from.
pub proof fn law_the_referee_grants_what_a_search_may_declare(d: Diagram)
    ensures
        attacked(d, d.side) == in_check(d) ==> (declarable(d) <==> declaration_fault(d, d.side)
            is None),
        declarable(d) ==> declaration_fault(d, d.side) is None || declaration_fault(d, d.side)
            == Some(DeclarationError::InCheck),
        declaration_fault(d, d.side) is None ==> declarable(d) || in_check(d),
{
}

/// The side to move may declare if and only if its king stands in the camp and is
/// not in check, ten more of its pieces stand there, and they and its hand make 28
/// points for Black or 27 for White.
pub proof fn law_a_search_declares_on_the_same_conditions(d: Diagram)
    ensures
        ({
            let black = d.side == Color::Black;
            let king = if black {
                d.black_king
            } else {
                d.white_king
            };
            &&& declarable(d) <==> {
                &&& king is Some
                &&& if black {
                    king->0.ix() % 9 <= 2
                } else {
                    king->0.ix() % 9 >= 6
                }
                &&& !in_check(d)
                &&& pieces_in_camp(d.squares, d.side, 81) >= 10
                &&& points_for(d, d.side) >= if black {
                    28int
                } else {
                    27
                }
            }
        }),
{
}

} // verus!
