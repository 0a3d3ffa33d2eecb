//! Reading moves, and asking whether a king is attacked.

use vstd::prelude::*;

use crate::diagram::Diagram;
use crate::position::{
    color_move, colored, king_falls, move_fault, parse_move, read_move, ParseError, PartialPosition,
};
use crate::shogi::{Color, Move};

verus! {

/// Reads one move of USI notation as a move of `side`'s. Notation does not say
/// who drops a piece.
pub fn move_from_usi(text: &str, side: Color) -> (r: Result<Move, ParseError>)
    ensures
        match r {
            Ok(mv) => read_move(text@) is Some && mv == colored(read_move(text@)->0, side),
            Err(error) => read_move(text@) is None && error == move_fault(text@),
        },
{
    match parse_move(text) {
        Ok(parsed) => Ok(color_move(parsed, side)),
        Err(error) => Err(error),
    }
}

/// Whether `color`'s king is attacked: the opponent, if it were to move, could
/// take it. A king that is not there is not attacked.
pub open spec fn attacked(d: Diagram, color: Color) -> bool {
    king_falls(Diagram { side: color.other(), ..d }) == Some(true)
}

/// Whether `color`'s king is attacked.
pub fn in_check(position: &PartialPosition, color: Color) -> (r: bool)
    ensures
        r == attacked(position@.diagram, color),
{
    let probe = position.with_side_to_move(color.flip());
    match probe.king_falls() {
        Some(falls) => falls,
        None => false,
    }
}

/// A king is attacked if and only if the opponent, were it to move, could take it;
/// whose turn it is does not matter.
pub proof fn law_an_attack_does_not_depend_on_the_turn(d: Diagram, color: Color)
    ensures
        attacked(d, color) <==> king_falls(Diagram { side: color.other(), ..d }) == Some(true),
        attacked(Diagram { side: d.side.other(), ..d }, color) == attacked(d, color),
{
}

} // verus!
