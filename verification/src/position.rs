//! Positions as the referee and the protocol know them: read from USI text,
//! written as SFEN, and put to the rules.
//!
//! The work is done by the crates `shogi_core`, `shogi_usi_parser`,
//! `shogi_legality_lite` and `shogi_official_kifu`. What is believed of them
//! stands in the contracts of the functions of this module that call them.

use shogi_core::Color as CoreColor;
use shogi_core::Move as CoreMove;
use shogi_core::PartialPosition as CorePosition;
use shogi_core::Piece as CorePiece;
use shogi_core::PieceKind as CoreKind;
use shogi_core::Square as CoreSquare;
use shogi_usi_parser::Error as UsiError;
use shogi_usi_parser::FromUsi;
use vstd::prelude::*;

use crate::diagram::{
    is_start, law_a_move_keeps_track_of_the_kings, law_the_start_is_sound, Diagram,
};
use crate::shogi::{
    lemma_place_names_square, Color, Hand, IllegalMoveKind, Move, Piece, PieceKind, Square, COLORS,
    ILLEGAL_KINDS, PIECE_KINDS,
};

use crate::text::{decimal, push_number};

verus! {

#[verifier::external_type_specification]
#[verifier::external_body]
pub struct ExPartialPosition(CorePosition);

/// What a position holds: the piece on each of its 81 squares.
pub uninterp spec fn partial_squares(position: CorePosition) -> Seq<Option<Piece>>;

/// What a position holds: the two hands, Black's first.
pub uninterp spec fn partial_hands(position: CorePosition) -> Seq<Hand>;

/// Where a position takes the two kings to be, Black's first.
pub uninterp spec fn partial_kings(position: CorePosition) -> Seq<Option<Square>>;

/// Whose turn it is in a position.
pub uninterp spec fn partial_side(position: CorePosition) -> Color;

/// The move number of a position.
pub uninterp spec fn partial_ply(position: CorePosition) -> u16;

/// The move that led to a position, if it is known.
pub uninterp spec fn partial_last_move(position: CorePosition) -> Option<Move>;

/// A position, the move number and the move that led to it.
#[verifier::ext_equal]
pub struct Placement {
    pub diagram: Diagram,
    pub ply: u16,
    pub last_move: Option<Move>,
}

pub open spec fn placement_of(position: CorePosition) -> Placement {
    Placement {
        diagram: Diagram {
            squares: partial_squares(position),
            black: partial_hands(position)[0],
            white: partial_hands(position)[1],
            black_king: partial_kings(position)[0],
            white_king: partial_kings(position)[1],
            side: partial_side(position),
        },
        ply: partial_ply(position),
        last_move: partial_last_move(position),
    }
}

impl Placement {
    /// The position after the move, with the move number one higher.
    pub open spec fn played(self, mv: Move) -> Placement {
        Placement {
            diagram: self.diagram.played(mv),
            ply: if self.ply == 65535 {
                0
            } else {
                (self.ply + 1) as u16
            },
            last_move: Some(mv),
        }
    }
}

/// Why text is not USI notation.
#[derive(Clone, Copy, Debug)]
pub enum ParseError {
    /// The bytes from `from` to `to` could not be read.
    InvalidInput { from: usize, to: usize, description: &'static str },
    /// Something was left over from the byte `from` on.
    Extra { from: usize },
    /// What was read is no position.
    InvalidPosition,
    /// Another reason.
    Other,
}

/// The status of a position.
#[derive(Clone, Copy, Debug, PartialEq, Eq, Structural)]
pub enum PositionStatus {
    BlackWins,
    WhiteWins,
    Draw,
    InProgress,
    Invalid,
}

/// What the text of a position, `startpos` or `sfen …`, stands for.
pub uninterp spec fn parsed_position(text: Seq<char>) -> Result<Placement, ParseError>;

/// What is wrong with text that is no move.
pub uninterp spec fn move_fault(text: Seq<char>) -> ParseError;

/// The SFEN of a position.
pub uninterp spec fn sfen_text(
    squares: Seq<Option<Piece>>,
    side: Color,
    black: Hand,
    white: Hand,
    ply: u16,
) -> Seq<char>;

/// What the rules say of a move.
pub uninterp spec fn legality(d: Diagram, mv: Move) -> Result<(), IllegalMoveKind>;

/// Whether the rules allow a move. A pawn drop that would leave a side without
/// a king with no answer is allowed here, and not by [`legality`].
pub uninterp spec fn allowed(d: Diagram, mv: Move) -> bool;

/// The status of a position, repetition apart.
pub uninterp spec fn status(d: Diagram) -> PositionStatus;

/// Whether the side to move could take the opponent's king, or `None` if there
/// is no such king.
pub uninterp spec fn king_falls(d: Diagram) -> Option<bool>;

/// The squares that the piece on `from` may move to.
pub uninterp spec fn targets(d: Diagram, from: Square) -> Seq<Square>;

/// The squares that `piece` may be dropped on.
pub uninterp spec fn drop_targets(d: Diagram, piece: Piece) -> Seq<Square>;

/// The official notation of a move.
pub uninterp spec fn kifu_text(p: Placement, mv: Move) -> Option<Seq<char>>;

/// `shogi_core::PartialPosition::startpos`: the position that a game starts
/// from, at move number 1.
#[verifier::external_body]
fn core_startpos() -> (r: CorePosition)
    ensures
        is_start(placement_of(r).diagram),
        partial_ply(r) == 1,
        partial_last_move(r) is None,
{
    CorePosition::startpos()
}

/// `shogi_core::PartialPosition`'s `Clone`: a position that holds the same.
#[verifier::external_body]
fn core_clone(position: &CorePosition) -> (r: CorePosition)
    ensures
        placement_of(r) == placement_of(*position),
{
    position.clone()
}

/// `shogi_core::PartialPosition::piece_at`: the piece on the square.
#[verifier::external_body]
fn core_piece_at(position: &CorePosition, square: Square) -> (r: Option<Piece>)
    ensures
        r == partial_squares(*position)[square.ix()],
{
    let square = CoreSquare::from_u8(square.index).unwrap();
    position.piece_at(square).map(|piece| Piece {
        kind: PIECE_KINDS[piece.piece_kind().array_index()],
        color: COLORS[piece.color().array_index()],
    })
}

/// `shogi_core::PartialPosition::hand_of_a_player`: the hand of a player.
#[verifier::external_body]
fn core_hand(position: &CorePosition, color: Color) -> (r: Hand)
    ensures
        r == partial_hands(*position)[color.ix()],
{
    let hand = position.hand_of_a_player(CoreColor::all()[color as usize]);
    Hand {
        pawn: hand.count(CoreKind::Pawn).unwrap_or(0),
        lance: hand.count(CoreKind::Lance).unwrap_or(0),
        knight: hand.count(CoreKind::Knight).unwrap_or(0),
        silver: hand.count(CoreKind::Silver).unwrap_or(0),
        gold: hand.count(CoreKind::Gold).unwrap_or(0),
        bishop: hand.count(CoreKind::Bishop).unwrap_or(0),
        rook: hand.count(CoreKind::Rook).unwrap_or(0),
    }
}

/// `shogi_core::PartialPosition::king_position`: where a king is taken to be.
#[verifier::external_body]
fn core_king_position(position: &CorePosition, color: Color) -> (r: Option<Square>)
    ensures
        r == partial_kings(*position)[color.ix()],
{
    let king = position.king_position(CoreColor::all()[color as usize]);
    king.map(|square| Square { index: square.index() })
}

/// `shogi_core::PartialPosition::side_to_move`: whose turn it is.
#[verifier::external_body]
fn core_side_to_move(position: &CorePosition) -> (r: Color)
    ensures
        r == partial_side(*position),
{
    COLORS[position.side_to_move().array_index()]
}

/// `shogi_core::PartialPosition::side_to_move_set`: sets whose turn it is, and
/// nothing else.
#[verifier::external_body]
fn core_side_to_move_set(position: &mut CorePosition, side: Color)
    ensures
        placement_of(*final(position)) == (Placement {
            diagram: Diagram { side, ..placement_of(*old(position)).diagram },
            ..placement_of(*old(position))
        }),
{
    position.side_to_move_set(CoreColor::all()[side as usize])
}

/// `shogi_core::PartialPosition::ply_set`: sets the move number, and nothing
/// else, unless it is zero, which is refused.
#[verifier::external_body]
fn core_ply_set(position: &mut CorePosition, ply: u16) -> (ok: bool)
    ensures
        ok == (ply != 0),
        placement_of(*final(position)) == (if ply == 0 {
            placement_of(*old(position))
        } else {
            Placement { ply, ..placement_of(*old(position)) }
        }),
{
    position.ply_set(ply)
}

/// `shogi_core::PartialPosition::make_move`: makes a move that can be carried
/// out, and refuses any other without a change. A hand counts a kind up to 255;
/// what it does past that is left out by the precondition.
#[verifier::external_body]
fn core_make_move(position: &mut CorePosition, mv: Move) -> (made: bool)
    requires
        forall|kind: PieceKind|
            kind.droppable() ==> #[trigger] placement_of(*old(position)).diagram.census(kind) <= 255,
    ensures
        made == placement_of(*old(position)).diagram.can_play(mv),
        placement_of(*final(position)) == (if made {
            placement_of(*old(position)).played(mv)
        } else {
            placement_of(*old(position))
        }),
{
    let at = |square: Square| CoreSquare::from_u8(square.index).unwrap();
    let piece = |p: Piece| CorePiece::new(CoreKind::all()[p.kind as usize], CoreColor::all()[p.color as usize]);
    let mv = match mv {
        Move::Normal { from, to, promote } => CoreMove::Normal { from: at(from), to: at(to), promote },
        Move::Drop { piece: dropped, to } => CoreMove::Drop { piece: piece(dropped), to: at(to) },
    };
    position.make_move(mv).is_some()
}

/// `shogi_core::PartialPosition::to_sfen_owned`: the SFEN of the position. It
/// spells out the board, the side to move, the hands and the move number, so
/// two positions with one SFEN agree in all of these.
#[verifier::external_body]
fn core_to_sfen(position: &CorePosition) -> (r: String)
    ensures
        r@ == sfen_text(
            partial_squares(*position),
            partial_side(*position),
            partial_hands(*position)[0],
            partial_hands(*position)[1],
            partial_ply(*position),
        ),
        forall|squares: Seq<Option<Piece>>, side: Color, black: Hand, white: Hand, ply: u16|
            squares.len() == 81 && partial_squares(*position).len() == 81 && #[trigger] sfen_text(
                squares,
                side,
                black,
                white,
                ply,
            ) == r@ ==> {
                &&& squares == partial_squares(*position)
                &&& side == partial_side(*position)
                &&& black == partial_hands(*position)[0]
                &&& white == partial_hands(*position)[1]
                &&& ply == partial_ply(*position)
            },
{
    position.to_sfen_owned()
}

/// `FromUsi::from_usi` of `shogi_usi_parser` for a position: what the text
/// stands for. A position that it reads has 81 squares, tracks its kings and
/// knows no last move, and `startpos` stands for the position that a game
/// starts from.
#[verifier::external_body]
fn usi_parse_position(text: &str) -> (r: Result<CorePosition, ParseError>)
    ensures
        match r {
            Ok(position) => {
                &&& parsed_position(text@) == Ok::<Placement, ParseError>(placement_of(position))
                &&& placement_of(position).diagram.well_formed()
                &&& placement_of(position).last_move is None
                &&& text@ == "startpos"@ ==> is_start(placement_of(position).diagram)
            },
            Err(error) => parsed_position(text@) == Err::<Placement, ParseError>(error),
        },
        text@ == "startpos"@ ==> r is Ok,
{
    match CorePosition::from_usi(text) {
        Ok(position) => Ok(position),
        Err(UsiError::InvalidInput { from, to, description }) => Err(
            ParseError::InvalidInput { from, to, description },
        ),
        Err(UsiError::Extra { from }) => Err(ParseError::Extra { from }),
        Err(UsiError::InvalidPosition) => Err(ParseError::InvalidPosition),
        Err(_) => Err(ParseError::Other),
    }
}

/// The digit of a file.
pub open spec fn file_letter(square: Square) -> char {
    (('0' as int) + square.spec_file()) as char
}

/// The letter of a rank.
pub open spec fn rank_letter(square: Square) -> char {
    (('a' as int) + square.spec_rank() - 1) as char
}

/// The letter of a kind, its promotion apart.
pub open spec fn kind_letter(kind: PieceKind) -> char {
    match kind.base() {
        PieceKind::Pawn => 'P',
        PieceKind::Lance => 'L',
        PieceKind::Knight => 'N',
        PieceKind::Silver => 'S',
        PieceKind::Gold => 'G',
        PieceKind::Bishop => 'B',
        PieceKind::Rook => 'R',
        _ => 'K',
    }
}

/// The USI notation of a move.
pub open spec fn usi_text(mv: Move) -> Seq<char> {
    match mv {
        Move::Normal { from, to, promote } => {
            let squares = seq![file_letter(from), rank_letter(from), file_letter(to), rank_letter(to)];
            if promote {
                squares.push('+')
            } else {
                squares
            }
        },
        Move::Drop { piece, to } => {
            let drop = seq![kind_letter(piece.kind), '*', file_letter(to), rank_letter(to)];
            if piece.kind.base() == piece.kind {
                drop
            } else {
                seq!['+'] + drop
            }
        },
    }
}

/// Whether USI text can stand for the move as read: text does not say who
/// drops a piece, and Black is read, and no promoted piece is dropped.
pub open spec fn readable(mv: Move) -> bool {
    &&& mv.on_board()
    &&& mv matches Move::Drop { piece, .. } ==> piece.color == Color::Black && piece.kind.base()
        == piece.kind
}

/// `FromUsi::from_usi` of `shogi_usi_parser` for a move: the move whose USI
/// notation the text is, a drop being read as Black's; an error if there is no
/// such move.
#[verifier::external_body]
fn usi_parse_move(text: &str) -> (r: Result<Move, ParseError>)
    ensures
        match r {
            Ok(mv) => readable(mv) && usi_text(mv) == text@,
            Err(error) => {
                &&& forall|mv: Move| readable(mv) ==> #[trigger] usi_text(mv) != text@
                &&& error == move_fault(text@)
            },
        },
{
    let square = |at: CoreSquare| Square { index: at.index() };
    CoreMove::from_usi(text).map(|mv| match mv {
        CoreMove::Normal { from, to, promote } => Move::Normal { from: square(from), to: square(to), promote },
        CoreMove::Drop { piece, to } => {
            let kind = PIECE_KINDS[piece.piece_kind().array_index()];
            let color = COLORS[piece.color().array_index()];
            Move::Drop { piece: Piece { kind, color }, to: square(to) }
        },
    }).map_err(|error| match error {
        UsiError::InvalidInput { from, to, description } => ParseError::InvalidInput { from, to, description },
        UsiError::Extra { from } => ParseError::Extra { from },
        UsiError::InvalidPosition => ParseError::InvalidPosition,
        _ => ParseError::Other,
    })
}

/// `shogi_legality_lite::is_legal_partial`: what the rules say of a move. A
/// move that they allow can be carried out.
#[verifier::external_body]
fn lite_is_legal(position: &CorePosition, mv: Move) -> (r: Result<(), IllegalMoveKind>)
    ensures
        r == legality(placement_of(*position).diagram, mv),
        r is Ok ==> placement_of(*position).diagram.can_play(mv),
{
    let at = |square: Square| CoreSquare::from_u8(square.index).unwrap();
    let of = |p: Piece| CorePiece::new(CoreKind::all()[p.kind as usize], CoreColor::all()[p.color as usize]);
    let mv = match mv {
        Move::Normal { from, to, promote } => CoreMove::Normal { from: at(from), to: at(to), promote },
        Move::Drop { piece, to } => CoreMove::Drop { piece: of(piece), to: at(to) },
    };
    shogi_legality_lite::is_legal_partial(position, mv).map_err(|kind| ILLEGAL_KINDS[kind as usize])
}

/// `shogi_legality_lite::is_legal_partial_lite`: whether the rules allow a
/// move.
#[verifier::external_body]
fn lite_is_allowed(position: &CorePosition, mv: Move) -> (r: bool)
    ensures
        r == allowed(placement_of(*position).diagram, mv),
{
    let at = |square: Square| CoreSquare::from_u8(square.index).unwrap();
    let piece = |p: Piece| CorePiece::new(CoreKind::all()[p.kind as usize], CoreColor::all()[p.color as usize]);
    let mv = match mv {
        Move::Normal { from, to, promote } => CoreMove::Normal { from: at(from), to: at(to), promote },
        Move::Drop { piece: dropped, to } => CoreMove::Drop { piece: piece(dropped), to: at(to) },
    };
    shogi_legality_lite::is_legal_partial_lite(position, mv)
}

/// `shogi_legality_lite::status_partial`: the status of the position. It is the
/// side to move that may be mated, so the winner is the other one; a draw, which
/// takes a repetition, is not told. It adds up what there is of a kind in eight
/// bits; what it does past 255 is left out by the precondition.
#[verifier::external_body]
fn lite_status(position: &CorePosition) -> (r: PositionStatus)
    requires
        forall|kind: PieceKind|
            kind.droppable() ==> #[trigger] placement_of(*position).diagram.census(kind) <= 255,
    ensures
        r == status(placement_of(*position).diagram),
        r == PositionStatus::BlackWins ==> placement_of(*position).diagram.side == Color::White,
        r == PositionStatus::WhiteWins ==> placement_of(*position).diagram.side == Color::Black,
        r != PositionStatus::Draw,
{
    match shogi_legality_lite::status_partial(position) {
        shogi_core::PositionStatus::BlackWins => PositionStatus::BlackWins,
        shogi_core::PositionStatus::WhiteWins => PositionStatus::WhiteWins,
        shogi_core::PositionStatus::Draw => PositionStatus::Draw,
        shogi_core::PositionStatus::InProgress => PositionStatus::InProgress,
        shogi_core::PositionStatus::Invalid => PositionStatus::Invalid,
    }
}

/// `shogi_legality_lite::prelegality::will_king_be_captured`: whether the side
/// to move could take the opponent's king.
#[verifier::external_body]
fn lite_king_falls(position: &CorePosition) -> (r: Option<bool>)
    ensures
        r == king_falls(placement_of(*position).diagram),
{
    shogi_legality_lite::prelegality::will_king_be_captured(position)
}

/// `shogi_legality_lite::normal_from_candidates`: the squares that the piece on
/// `from` may move to.
#[verifier::external_body]
fn lite_targets(position: &CorePosition, from: Square) -> (r: Vec<Square>)
    ensures
        r@ == targets(placement_of(*position).diagram, from),
{
    let from = CoreSquare::from_u8(from.index).unwrap();
    let squares = shogi_legality_lite::normal_from_candidates(position, from);
    squares.map(|square| Square { index: square.index() }).collect()
}

/// `shogi_legality_lite::drop_candidates`: the squares that `piece` may be
/// dropped on.
#[verifier::external_body]
fn lite_drop_targets(position: &CorePosition, piece: Piece) -> (r: Vec<Square>)
    ensures
        r@ == drop_targets(placement_of(*position).diagram, piece),
{
    let kind = CoreKind::all()[piece.kind as usize];
    let color = CoreColor::all()[piece.color as usize];
    let squares = shogi_legality_lite::drop_candidates(position, CorePiece::new(kind, color));
    squares.map(|square| Square { index: square.index() }).collect()
}

/// `shogi_official_kifu::display_single_move_kansuji`: the official notation of
/// a move, if it has one.
#[verifier::external_body]
fn kifu_display(position: &CorePosition, mv: Move) -> (r: Option<String>)
    ensures
        match r {
            Some(text) => kifu_text(placement_of(*position), mv) == Some(text@),
            None => kifu_text(placement_of(*position), mv) is None,
        },
{
    let at = |square: Square| CoreSquare::from_u8(square.index).unwrap();
    let piece = |p: Piece| CorePiece::new(CoreKind::all()[p.kind as usize], CoreColor::all()[p.color as usize]);
    let mv = match mv {
        Move::Normal { from, to, promote } => CoreMove::Normal { from: at(from), to: at(to), promote },
        Move::Drop { piece: dropped, to } => CoreMove::Drop { piece: piece(dropped), to: at(to) },
    };
    shogi_official_kifu::display_single_move_kansuji(position, mv)
}

/// A position: a board, the hands, the side to move, the move number and the
/// move that led here.
pub struct PartialPosition {
    inner: CorePosition,
}

impl View for PartialPosition {
    type V = Placement;

    closed spec fn view(&self) -> Placement {
        placement_of(self.inner)
    }
}

impl PartialPosition {
    #[verifier::type_invariant]
    spec fn is_well_formed(self) -> bool {
        placement_of(self.inner).diagram.well_formed()
    }

    /// The position that a game starts from.
    pub fn startpos() -> (r: PartialPosition)
        ensures
            is_start(r@.diagram),
            r@.ply == 1,
            r@.last_move is None,
    {
        let inner = core_startpos();
        proof {
            law_the_start_is_sound(placement_of(inner).diagram);
        }
        PartialPosition { inner }
    }

    /// The position that USI text, `startpos` or `sfen …`, stands for.
    pub fn from_usi(text: &str) -> (r: Result<PartialPosition, ParseError>)
        ensures
            match r {
                Ok(position) => {
                    &&& parsed_position(text@) == Ok::<Placement, ParseError>(position@)
                    &&& position@.last_move is None
                    &&& text@ == "startpos"@ ==> is_start(position@.diagram)
                },
                Err(error) => parsed_position(text@) == Err::<Placement, ParseError>(error),
            },
            text@ == "startpos"@ ==> r is Ok,
    {
        match usi_parse_position(text) {
            Ok(inner) => Ok(PartialPosition { inner }),
            Err(error) => Err(error),
        }
    }

    /// Every position has 81 squares and its kings where it takes them to be.
    pub(crate) fn is_a_position(&self)
        ensures
            self@.diagram.well_formed(),
    {
        proof {
            use_type_invariant(self);
        }
    }

    /// The position as `shogi_core` holds it.
    pub(crate) fn held(&self) -> (r: &CorePosition)
        ensures
            placement_of(*r) == self@,
    {
        &self.inner
    }

    pub fn side_to_move(&self) -> (r: Color)
        ensures
            r == self@.diagram.side,
    {
        core_side_to_move(&self.inner)
    }

    /// The piece on `square`, if any.
    pub fn piece_at(&self, square: Square) -> (r: Option<Piece>)
        ensures
            r == self@.diagram.at(square),
    {
        core_piece_at(&self.inner, square)
    }

    pub fn hand_of_a_player(&self, color: Color) -> (r: Hand)
        ensures
            r == self@.diagram.hand(color),
    {
        core_hand(&self.inner, color)
    }

    /// Where `color`'s king is taken to be.
    pub fn king_position(&self, color: Color) -> (r: Option<Square>)
        ensures
            r == self@.diagram.king(color),
    {
        core_king_position(&self.inner, color)
    }

    /// The position with another side to move.
    pub fn with_side_to_move(&self, side: Color) -> (r: PartialPosition)
        ensures
            r@ == (Placement { diagram: Diagram { side, ..self@.diagram }, ..self@ }),
    {
        let mut inner = core_clone(&self.inner);
        core_side_to_move_set(&mut inner, side);
        proof {
            use_type_invariant(self);
            let d = placement_of(inner).diagram;
            assert(d.squares == self@.diagram.squares);
            assert(d.tracks_king(Color::Black));
            assert(d.tracks_king(Color::White));
        }
        PartialPosition { inner }
    }

    /// The position with another move number.
    pub fn with_ply(&self, ply: u16) -> (r: PartialPosition)
        requires
            ply != 0,
        ensures
            r@ == (Placement { ply, ..self@ }),
    {
        let mut inner = core_clone(&self.inner);
        let _ = core_ply_set(&mut inner, ply);
        proof {
            use_type_invariant(self);
        }
        PartialPosition { inner }
    }

    /// The position after a move that can be carried out.
    pub fn after(&self, mv: Move) -> (r: PartialPosition)
        requires
            self@.diagram.can_play(mv),
            forall|kind: PieceKind| kind.droppable() ==> #[trigger] self@.diagram.census(kind) <= 255,
        ensures
            r@ == self@.played(mv),
    {
        let mut inner = core_clone(&self.inner);
        let _ = core_make_move(&mut inner, mv);
        proof {
            use_type_invariant(self);
            law_a_move_keeps_track_of_the_kings(self@.diagram, mv);
        }
        PartialPosition { inner }
    }

    /// The SFEN of the position.
    pub fn to_sfen_owned(&self) -> (r: String)
        ensures
            r@ == self@.sfen(),
            forall|other: Placement|
                other.diagram.squares.len() == 81 && #[trigger] other.sfen() == r@
                    ==> other.same_but_for_the_kings(self@),
    {
        proof {
            use_type_invariant(self);
        }
        core_to_sfen(&self.inner)
    }

    /// What the rules say of `mv`.
    pub fn is_legal(&self, mv: Move) -> (r: Result<(), IllegalMoveKind>)
        ensures
            r == legality(self@.diagram, mv),
            r is Ok ==> self@.diagram.can_play(mv),
    {
        lite_is_legal(&self.inner, mv)
    }

    /// Whether the rules allow `mv`.
    pub fn is_allowed(&self, mv: Move) -> (r: bool)
        ensures
            r == allowed(self@.diagram, mv),
    {
        lite_is_allowed(&self.inner, mv)
    }

    /// The status of the position, repetition apart.
    pub fn status(&self) -> (r: PositionStatus)
        requires
            forall|kind: PieceKind| kind.droppable() ==> #[trigger] self@.diagram.census(kind) <= 255,
        ensures
            r == status(self@.diagram),
            r == PositionStatus::BlackWins ==> self@.diagram.side == Color::White,
            r == PositionStatus::WhiteWins ==> self@.diagram.side == Color::Black,
            r != PositionStatus::Draw,
    {
        lite_status(&self.inner)
    }

    /// Whether the side to move could take the opponent's king.
    pub fn king_falls(&self) -> (r: Option<bool>)
        ensures
            r == king_falls(self@.diagram),
    {
        lite_king_falls(&self.inner)
    }

    /// The squares that the piece on `from` may move to.
    pub fn targets(&self, from: Square) -> (r: Vec<Square>)
        ensures
            r@ == targets(self@.diagram, from),
    {
        lite_targets(&self.inner, from)
    }

    /// The squares that `piece` may be dropped on.
    pub fn drop_targets(&self, piece: Piece) -> (r: Vec<Square>)
        ensures
            r@ == drop_targets(self@.diagram, piece),
    {
        lite_drop_targets(&self.inner, piece)
    }

    /// The official notation of `mv`, if it has one.
    pub fn kifu(&self, mv: Move) -> (r: Option<String>)
        ensures
            match r {
                Some(text) => kifu_text(self@, mv) == Some(text@),
                None => kifu_text(self@, mv) is None,
            },
    {
        kifu_display(&self.inner, mv)
    }
}

impl Clone for PartialPosition {
    fn clone(&self) -> (r: PartialPosition)
        ensures
            r@ == self@,
    {
        let inner = core_clone(&self.inner);
        proof {
            use_type_invariant(self);
        }
        PartialPosition { inner }
    }
}

impl Placement {
    /// The SFEN of the position.
    pub open spec fn sfen(self) -> Seq<char> {
        sfen_text(
            self.diagram.squares,
            self.diagram.side,
            self.diagram.black,
            self.diagram.white,
            self.ply,
        )
    }

    /// Whether two positions agree in all that a SFEN spells out.
    pub open spec fn same_but_for_the_kings(self, other: Placement) -> bool {
        &&& self.diagram.squares == other.diagram.squares
        &&& self.diagram.side == other.diagram.side
        &&& self.diagram.black == other.diagram.black
        &&& self.diagram.white == other.diagram.white
        &&& self.ply == other.ply
    }
}

/// The move that text is the USI notation of, a drop read as Black's.
pub open spec fn read_move(text: Seq<char>) -> Option<Move> {
    if exists|mv: Move| readable(mv) && #[trigger] usi_text(mv) == text {
        Some(choose|mv: Move| readable(mv) && #[trigger] usi_text(mv) == text)
    } else {
        None
    }
}

/// Two moves with one notation are the same move.
pub proof fn law_notation_names_one_move(a: Move, b: Move)
    requires
        readable(a),
        readable(b),
        usi_text(a) == usi_text(b),
    ensures
        a == b,
{
    let s = usi_text(a);
    let t = usi_text(b);
    match (a, b) {
        (
            Move::Normal { from: f1, to: t1, promote: p1 },
            Move::Normal { from: f2, to: t2, promote: p2 },
        ) => {
            assert(s.len() == if p1 { 5nat } else { 4nat });
            assert(t.len() == if p2 { 5nat } else { 4nat });
            assert(s[0] == t[0] && s[1] == t[1] && s[2] == t[2] && s[3] == t[3]);
            lemma_letters_name_square(f1, f2);
            lemma_letters_name_square(t1, t2);
        },
        (Move::Drop { piece: p1, to: t1 }, Move::Drop { piece: p2, to: t2 }) => {
            assert(s[0] == t[0] && s[2] == t[2] && s[3] == t[3]);
            lemma_letters_name_square(t1, t2);
            assert(kind_letter(p1.kind) == kind_letter(p2.kind));
        },
        (Move::Normal { from, .. }, Move::Drop { .. }) => {
            assert(s[1] == rank_letter(from));
            assert(t[1] == '*');
        },
        (Move::Drop { .. }, Move::Normal { from, .. }) => {
            assert(t[1] == rank_letter(from));
            assert(s[1] == '*');
        },
    }
}

proof fn lemma_letters_name_square(a: Square, b: Square)
    requires
        a.on_board(),
        b.on_board(),
        file_letter(a) == file_letter(b),
        rank_letter(a) == rank_letter(b),
    ensures
        a == b,
{
    broadcast use lemma_place_names_square;

    assert(a.ix() == b.ix());
}

proof fn lemma_reads(mv: Move, text: Seq<char>)
    requires
        readable(mv),
        usi_text(mv) == text,
    ensures
        read_move(text) == Some(mv),
{
    let read = choose|other: Move| readable(other) && #[trigger] usi_text(other) == text;
    law_notation_names_one_move(mv, read);
}

/// Reads one move of USI notation. Notation does not say who drops a piece:
/// Black is read.
pub fn parse_move(text: &str) -> (r: Result<Move, ParseError>)
    ensures
        match r {
            Ok(mv) => read_move(text@) == Some(mv) && mv.on_board(),
            Err(error) => read_move(text@) is None && error == move_fault(text@),
        },
{
    let r = usi_parse_move(text);
    proof {
        if let Ok(mv) = r {
            lemma_reads(mv, text@);
        }
    }
    r
}

/// A move as the side that plays it: a drop is given its colour.
pub open spec fn colored(mv: Move, side: Color) -> Move {
    match mv {
        Move::Drop { piece, to } => Move::Drop { piece: Piece { kind: piece.kind, color: side }, to },
        _ => mv,
    }
}

pub fn color_move(mv: Move, side: Color) -> (r: Move)
    ensures
        r == colored(mv, side),
{
    match mv {
        Move::Drop { piece, to } => Move::Drop { piece: Piece::new(piece.kind, side), to },
        normal => normal,
    }
}

fn push_square(text: &mut String, square: Square)
    ensures
        final(text)@ == old(text)@.push(file_letter(square)).push(rank_letter(square)),
{
    let file: char = (48u8 + square.file()) as char;
    let rank: char = (96u8 + square.rank()) as char;
    text.push(file);
    text.push(rank);
}

impl Move {
    /// The USI notation of the move.
    pub fn to_usi_owned(self) -> (r: String)
        ensures
            r@ == usi_text(self),
    {
        let mut text = String::new();
        match self {
            Move::Normal { from, to, promote } => {
                push_square(&mut text, from);
                push_square(&mut text, to);
                if promote {
                    text.push('+');
                }
            },
            Move::Drop { piece, to } => {
                if piece.kind.unpromote().is_some() {
                    text.push('+');
                }
                text.push(
                    match piece.kind.unpromoted() {
                        PieceKind::Pawn => 'P',
                        PieceKind::Lance => 'L',
                        PieceKind::Knight => 'N',
                        PieceKind::Silver => 'S',
                        PieceKind::Gold => 'G',
                        PieceKind::Bishop => 'B',
                        PieceKind::Rook => 'R',
                        _ => 'K',
                    },
                );
                text.push('*');
                push_square(&mut text, to);
            },
        }
        assert(text@ =~= usi_text(self));
        text
    }
}

/// A move written down and read again is the same move, once a drop is given
/// the colour of the side that plays it.
pub proof fn law_notation_round_trips(mv: Move, side: Color)
    requires
        mv.on_board(),
        mv matches Move::Drop { piece, .. } ==> piece.color == side && piece.kind.base() == piece.kind,
    ensures
        read_move(usi_text(mv)) matches Some(read) && colored(read, side) == mv,
{
    let black = colored(mv, Color::Black);
    assert(usi_text(black) =~= usi_text(mv));
    lemma_reads(black, usi_text(mv));
}

/// What is wrong with text, in words.
pub open spec fn parse_error_text(error: ParseError) -> Seq<char> {
    match error {
        ParseError::InvalidInput { from, to, description } => "Invalid input: failed to parse s["@
            + decimal(from as int) + ".."@ + decimal(to as int) + "]: "@ + description@,
        ParseError::Extra { from } => "Extra input: s["@ + decimal(from as int)
            + "..] was left unread"@,
        ParseError::InvalidPosition => "Invalid position"@,
        ParseError::Other => "Unknown error"@,
    }
}

/// What is wrong with text, field by field.
pub open spec fn parse_error_fields(error: ParseError) -> Seq<char> {
    match error {
        ParseError::InvalidInput { from, to, description } => "InvalidInput { from: "@ + decimal(
            from as int,
        ) + ", to: "@ + decimal(to as int) + ", description: \""@ + description@ + "\" }"@,
        ParseError::Extra { from } => "Extra { from: "@ + decimal(from as int) + " }"@,
        ParseError::InvalidPosition => "InvalidPosition"@,
        ParseError::Other => "Other"@,
    }
}

impl ParseError {
    /// The error in words.
    pub fn describe(&self) -> (r: String)
        ensures
            r@ == parse_error_text(*self),
    {
        match *self {
            ParseError::InvalidInput { from, to, description } => {
                let mut text = "Invalid input: failed to parse s[".to_owned();
                push_number(&mut text, from as u128);
                text.append("..");
                push_number(&mut text, to as u128);
                text.append("]: ");
                text.append(description);
                text
            },
            ParseError::Extra { from } => {
                let mut text = "Extra input: s[".to_owned();
                push_number(&mut text, from as u128);
                text.append("..] was left unread");
                text
            },
            ParseError::InvalidPosition => "Invalid position".to_owned(),
            ParseError::Other => "Unknown error".to_owned(),
        }
    }

    /// The error field by field.
    pub fn fields(&self) -> (r: String)
        ensures
            r@ == parse_error_fields(*self),
    {
        match *self {
            ParseError::InvalidInput { from, to, description } => {
                let mut text = "InvalidInput { from: ".to_owned();
                push_number(&mut text, from as u128);
                text.append(", to: ");
                push_number(&mut text, to as u128);
                text.append(", description: \"");
                text.append(description);
                text.append("\" }");
                text
            },
            ParseError::Extra { from } => {
                let mut text = "Extra { from: ".to_owned();
                push_number(&mut text, from as u128);
                text.append(" }");
                text
            },
            ParseError::InvalidPosition => "InvalidPosition".to_owned(),
            ParseError::Other => "Other".to_owned(),
        }
    }
}

} // verus!
