//! The board that a search walks, with its moves, its key and its checks.
//!
//! The work is done by the crate `shunsai`. What is believed of it stands in
//! the contracts of the functions of this module that call it; everything else
//! is proved from those.

use shogi_core::Color as CoreColor;
use shogi_core::Move as CoreMove;
use shogi_core::PartialPosition as CorePosition;
use shogi_core::Piece as CorePiece;
use shogi_core::PieceKind as CoreKind;
use shogi_core::Square as CoreSquare;
use vstd::prelude::*;

use crate::diagram::{law_a_move_keeps_the_position_sound, Diagram};
use crate::position::{placement_of, PartialPosition};
use crate::shogi::{Color, Hand, Move, Piece, Square, COLORS, PIECE_KINDS};

verus! {

#[verifier::external_type_specification]
#[verifier::external_body]
pub struct ExPosition(shunsai::Position);

#[verifier::external_type_specification]
#[verifier::external_body]
pub struct ExUndo(shunsai::Undo);

/// What a board holds: the piece on each of its 81 squares.
pub uninterp spec fn board_squares(position: shunsai::Position) -> Seq<Option<Piece>>;

/// What a board holds: the two hands, Black's first.
pub uninterp spec fn board_hands(position: shunsai::Position) -> Seq<Hand>;

/// Where a board takes the two kings to be, Black's first.
pub uninterp spec fn board_kings(position: shunsai::Position) -> Seq<Option<Square>>;

/// Whose turn it is on a board.
pub uninterp spec fn board_side(position: shunsai::Position) -> Color;

/// The legal moves of a position, in the order in which they are generated.
pub uninterp spec fn legal_moves(d: Diagram) -> Seq<Move>;

/// Whether the side to move is in check.
pub uninterp spec fn in_check(d: Diagram) -> bool;

/// The Zobrist key of a position.
pub uninterp spec fn zobrist_key(d: Diagram) -> u64;

/// What taking `mv` back needs, once `mv` was made in `d`.
pub uninterp spec fn undo_for(d: Diagram, mv: Move) -> shunsai::Undo;

/// The position that a board is in.
pub open spec fn diagram_of(position: shunsai::Position) -> Diagram {
    Diagram {
        squares: board_squares(position),
        black: board_hands(position)[0],
        white: board_hands(position)[1],
        black_king: board_kings(position)[0],
        white_king: board_kings(position)[1],
        side: board_side(position),
    }
}

/// `shunsai::Position::new`: the board of a sound position. Past 18 of a kind
/// in a hand the call panics, which a sound position rules out.
#[verifier::external_body]
fn shunsai_new(position: &CorePosition) -> (r: shunsai::Position)
    requires
        placement_of(*position).diagram.sound(),
    ensures
        diagram_of(r) == placement_of(*position).diagram,
{
    shunsai::Position::new(position.clone())
}

/// `shunsai::Position::piece_at`: the piece on the square.
#[verifier::external_body]
fn shunsai_piece_at(position: &shunsai::Position, square: Square) -> (r: Option<Piece>)
    ensures
        r == board_squares(*position)[square.ix()],
{
    let square = CoreSquare::from_u8(square.index).unwrap();
    position.piece_at(square).map(|piece| Piece {
        kind: PIECE_KINDS[piece.piece_kind().array_index()],
        color: COLORS[piece.color().array_index()],
    })
}

/// `shunsai::Position::hand`: the hand of a player.
#[verifier::external_body]
fn shunsai_hand(position: &shunsai::Position, color: Color) -> (r: Hand)
    ensures
        r == board_hands(*position)[color.ix()],
{
    let hand = position.hand(CoreColor::all()[color as usize]);
    Hand {
        pawn: hand.count(CoreKind::Pawn).unwrap_or(0),
        lance: hand.count(CoreKind::Lance).unwrap_or(0),
        knight: hand.count(CoreKind::Knight).unwrap_or(0),
        silver: hand.count(CoreKind::Silver).unwrap_or(0),
        gold: hand.count(CoreKind::Gold).unwrap_or(0),
        bishop: hand.count(CoreKind::Bishop).unwrap_or(0),
        rook: hand.count(CoreKind::Rook).unwrap_or(0),
    }
}

/// `shunsai::Position::king_square`: where a king is taken to be.
#[verifier::external_body]
fn shunsai_king_square(position: &shunsai::Position, color: Color) -> (r: Option<Square>)
    ensures
        r == board_kings(*position)[color.ix()],
{
    let king = position.king_square(CoreColor::all()[color as usize]);
    king.map(|square| Square { index: square.index() })
}

/// `shunsai::Position::side_to_move`: whose turn it is.
#[verifier::external_body]
fn shunsai_side_to_move(position: &shunsai::Position) -> (r: Color)
    ensures
        r == board_side(*position),
{
    COLORS[position.side_to_move().array_index()]
}

/// `shunsai::Position::key`: the Zobrist key of the board, the hands and the
/// side to move.
#[verifier::external_body]
fn shunsai_key(position: &shunsai::Position) -> (r: u64)
    ensures
        r == zobrist_key(diagram_of(*position)),
{
    position.key()
}

/// `shunsai::Position::in_check`: whether the side to move is in check.
#[verifier::external_body]
fn shunsai_in_check(position: &shunsai::Position) -> (r: bool)
    ensures
        r == in_check(diagram_of(*position)),
{
    position.in_check()
}

/// `shunsai::Position::legal_moves`: every legal move, in the order in which
/// they are generated. Of a sound position each of them can be carried out: it
/// moves a piece of the side to move or drops one that it holds, and never
/// takes a king.
#[verifier::external_body]
fn shunsai_legal_moves(position: &shunsai::Position) -> (r: Vec<Move>)
    requires
        diagram_of(*position).sound(),
    ensures
        r@ == legal_moves(diagram_of(*position)),
        forall|i: int|
            0 <= i < r@.len() ==> diagram_of(*position).can_play(#[trigger] r@[i]),
{
    let at = |square: CoreSquare| Square { index: square.index() };
    position.legal_moves().into_iter().map(|mv| match mv {
        CoreMove::Normal { from, to, promote } => Move::Normal { from: at(from), to: at(to), promote },
        CoreMove::Drop { piece, to } => {
            let kind = PIECE_KINDS[piece.piece_kind().array_index()];
            let color = COLORS[piece.color().array_index()];
            Move::Drop { piece: Piece { kind, color }, to: at(to) }
        },
    }).collect()
}

/// `shunsai::Position::do_move`: makes a move that can be carried out, and
/// returns what taking it back needs. On such a move the call does not panic.
#[verifier::external_body]
fn shunsai_do_move(position: &mut shunsai::Position, mv: Move) -> (undo: shunsai::Undo)
    requires
        diagram_of(*old(position)).sound(),
        diagram_of(*old(position)).can_play(mv),
    ensures
        diagram_of(*final(position)) == diagram_of(*old(position)).played(mv),
        undo == undo_for(diagram_of(*old(position)), mv),
    no_unwind
{
    let at = |square: Square| CoreSquare::from_u8(square.index).unwrap();
    let piece = |p: Piece| CorePiece::new(CoreKind::all()[p.kind as usize], CoreColor::all()[p.color as usize]);
    position.do_move(match mv {
        Move::Normal { from, to, promote } => CoreMove::Normal { from: at(from), to: at(to), promote },
        Move::Drop { piece: dropped, to } => CoreMove::Drop { piece: piece(dropped), to: at(to) },
    })
}

/// `shunsai::Position::undo_move`: takes back the move that was made last, with
/// what making it returned.
#[verifier::external_body]
fn shunsai_undo_move(position: &mut shunsai::Position, mv: Move, undo: shunsai::Undo)
    requires
        exists|before: Diagram|
            before.sound() && before.can_play(mv) && undo == #[trigger] undo_for(before, mv)
                && diagram_of(*old(position)) == before.played(mv),
    ensures
        forall|before: Diagram|
            before.sound() && before.can_play(mv) && undo == #[trigger] undo_for(before, mv)
                && diagram_of(*old(position)) == before.played(mv) ==> diagram_of(*final(position))
                == before,
    no_unwind
{
    let at = |square: Square| CoreSquare::from_u8(square.index).unwrap();
    let piece = |p: Piece| CorePiece::new(CoreKind::all()[p.kind as usize], CoreColor::all()[p.color as usize]);
    let mv = match mv {
        Move::Normal { from, to, promote } => CoreMove::Normal { from: at(from), to: at(to), promote },
        Move::Drop { piece: dropped, to } => CoreMove::Drop { piece: piece(dropped), to: at(to) },
    };
    position.undo_move(mv, undo)
}

/// A board, always in a sound position.
pub struct Board {
    inner: shunsai::Position,
}

impl View for Board {
    type V = Diagram;

    closed spec fn view(&self) -> Diagram {
        diagram_of(self.inner)
    }
}

impl Board {
    #[verifier::type_invariant]
    spec fn is_sound(self) -> bool {
        diagram_of(self.inner).sound()
    }

    /// The board of `position`.
    pub fn new(position: &PartialPosition) -> (r: Board)
        requires
            position@.diagram.sound(),
        ensures
            r@ == position@.diagram,
    {
        Board { inner: shunsai_new(position.held()) }
    }

    /// Every board is in a sound position.
    pub(crate) fn is_a_position(&self)
        ensures
            self@.sound(),
    {
        proof {
            use_type_invariant(self);
        }
    }

    /// The piece on `square`, if any.
    pub fn piece_at(&self, square: Square) -> (r: Option<Piece>)
        ensures
            r == self@.at(square),
    {
        shunsai_piece_at(&self.inner, square)
    }

    pub fn hand(&self, color: Color) -> (r: Hand)
        ensures
            r == self@.hand(color),
    {
        shunsai_hand(&self.inner, color)
    }

    /// The square of `color`'s king, if there is one.
    pub fn king_square(&self, color: Color) -> (r: Option<Square>)
        ensures
            r == self@.king(color),
    {
        shunsai_king_square(&self.inner, color)
    }

    pub fn side_to_move(&self) -> (r: Color)
        ensures
            r == self@.side,
    {
        shunsai_side_to_move(&self.inner)
    }

    /// The Zobrist key of the position.
    pub fn key(&self) -> (r: u64)
        ensures
            r == zobrist_key(self@),
    {
        shunsai_key(&self.inner)
    }

    /// Whether the side to move is in check.
    pub fn in_check(&self) -> (r: bool)
        ensures
            r == in_check(self@),
    {
        shunsai_in_check(&self.inner)
    }

    /// Every legal move. Each of them can be carried out.
    pub fn legal_moves(&self) -> (r: Vec<Move>)
        ensures
            r@ == legal_moves(self@),
            forall|i: int| 0 <= i < r@.len() ==> self@.can_play(#[trigger] r@[i]),
    {
        proof {
            use_type_invariant(self);
        }
        shunsai_legal_moves(&self.inner)
    }

    /// Makes a move that can be carried out, and returns what taking it back
    /// needs.
    pub fn do_move(&mut self, mv: Move) -> (undo: shunsai::Undo)
        requires
            old(self)@.can_play(mv),
        ensures
            final(self)@ == old(self)@.played(mv),
            undo == undo_for(old(self)@, mv),
            old(self)@.sound(),
    {
        proof {
            use_type_invariant(&*self);
            law_a_move_keeps_the_position_sound(self@, mv);
        }
        shunsai_do_move(&mut self.inner, mv)
    }

    /// Takes back the move that was made last, with what making it returned:
    /// the board is in the position again that the move was made in.
    pub fn undo_move(&mut self, mv: Move, undo: shunsai::Undo)
        requires
            exists|before: Diagram|
                before.sound() && before.can_play(mv) && undo == #[trigger] undo_for(before, mv)
                    && old(self)@ == before.played(mv),
        ensures
            forall|before: Diagram|
                before.sound() && before.can_play(mv) && undo == #[trigger] undo_for(before, mv)
                    && old(self)@ == before.played(mv) ==> final(self)@ == before,
    {
        shunsai_undo_move(&mut self.inner, mv, undo)
    }
}

} // verus!
