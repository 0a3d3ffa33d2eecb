//! What a position is, as mathematics, and what a move does to it.

use vstd::prelude::*;

use crate::shogi::{lemma_hand_with, Color, Hand, Move, Piece, PieceKind, Square};

verus! {

/// A position: what stands on each of the 81 squares, what each side holds,
/// where each king is taken to be, and whose turn it is.
#[verifier::ext_equal]
pub struct Diagram {
    pub squares: Seq<Option<Piece>>,
    pub black: Hand,
    pub white: Hand,
    pub black_king: Option<Square>,
    pub white_king: Option<Square>,
    pub side: Color,
}

impl Diagram {
    pub open spec fn at(self, square: Square) -> Option<Piece> {
        self.squares[square.ix()]
    }

    pub open spec fn hand(self, color: Color) -> Hand {
        match color {
            Color::Black => self.black,
            Color::White => self.white,
        }
    }

    pub open spec fn king(self, color: Color) -> Option<Square> {
        match color {
            Color::Black => self.black_king,
            Color::White => self.white_king,
        }
    }

    pub open spec fn with_hand(self, color: Color, hand: Hand) -> Diagram {
        match color {
            Color::Black => Diagram { black: hand, ..self },
            Color::White => Diagram { white: hand, ..self },
        }
    }

    pub open spec fn with_king(self, color: Color, square: Square) -> Diagram {
        match color {
            Color::Black => Diagram { black_king: Some(square), ..self },
            Color::White => Diagram { white_king: Some(square), ..self },
        }
    }

    /// How many of `kind` there are on the board and in the hands together, a
    /// promoted piece counting as what it promoted from.
    pub open spec fn census(self, kind: PieceKind) -> int {
        standing(self.squares, kind) + self.black.holds(kind) + self.white.holds(kind)
    }

    /// Whether the pieces could come from one shogi set.
    pub open spec fn fits_a_set(self) -> bool {
        forall|kind: PieceKind|
            kind.droppable() ==> #[trigger] self.census(kind) <= set_holds(kind)
    }

    /// Whether `color`'s king, where it is taken to be, is one; `color` has none
    /// if it is taken to be nowhere.
    pub open spec fn tracks_king(self, color: Color) -> bool {
        match self.king(color) {
            Some(square) => square.on_board() && self.at(square) == Some(king_of(color)),
            None => forall|i: int|
                0 <= i < 81 ==> #[trigger] self.squares[i] != Some(king_of(color)),
        }
    }

    /// Whether `color` has at most one king.
    pub open spec fn lone_king(self, color: Color) -> bool {
        forall|i: int, j: int|
            0 <= i < 81 && 0 <= j < 81 && #[trigger] self.squares[i] == Some(king_of(color))
                && #[trigger] self.squares[j] == Some(king_of(color)) ==> i == j
    }

    /// A board of 81 squares whose kings are where they are taken to be.
    pub open spec fn well_formed(self) -> bool {
        &&& self.squares.len() == 81
        &&& self.tracks_king(Color::Black)
        &&& self.tracks_king(Color::White)
    }

    /// A position of a real shogi set, with at most one king to a side.
    pub open spec fn sound(self) -> bool {
        &&& self.well_formed()
        &&& self.lone_king(Color::Black)
        &&& self.lone_king(Color::White)
        &&& self.fits_a_set()
    }

    /// Whether the move can be carried out at all: the side to move has the
    /// piece, and the square where it lands is free or holds a piece that can
    /// be taken. Whether the rules allow the move is another question.
    pub open spec fn can_play(self, mv: Move) -> bool {
        &&& mv.on_board()
        &&& match mv {
            Move::Normal { from, to, promote } => {
                &&& self.at(from) is Some
                &&& self.at(from)->0.color == self.side
                &&& promote ==> self.at(from)->0.kind.promoted() is Some
                &&& self.at(to) is Some ==> {
                    &&& self.at(to)->0.color != self.side
                    &&& self.at(to)->0.kind != PieceKind::King
                }
            },
            Move::Drop { piece, to } => {
                &&& piece.color == self.side
                &&& piece.kind.droppable()
                &&& self.hand(self.side).holds(piece.kind) >= 1
                &&& self.at(to) is None
            },
        }
    }

    /// The piece that a move of the board puts down.
    pub open spec fn placed(self, from: Square, promote: bool) -> Piece {
        let piece = self.at(from)->0;
        Piece {
            kind: if promote {
                piece.kind.promoted()->0
            } else {
                piece.kind
            },
            color: piece.color,
        }
    }

    /// The position after the move.
    pub open spec fn played(self, mv: Move) -> Diagram {
        let after = match mv {
            Move::Normal { from, to, promote } => {
                let placed = self.placed(from, promote);
                let taken = match self.at(to) {
                    Some(victim) => self.with_hand(
                        self.side,
                        self.hand(self.side).with(
                            victim.kind.base(),
                            self.hand(self.side).holds(victim.kind.base()) + 1,
                        ),
                    ),
                    None => self,
                };
                let moved = Diagram {
                    squares: self.squares.update(from.ix(), None).update(to.ix(), Some(placed)),
                    ..taken
                };
                if placed.kind == PieceKind::King {
                    moved.with_king(placed.color, to)
                } else {
                    moved
                }
            },
            Move::Drop { piece, to } => {
                let given = self.with_hand(
                    self.side,
                    self.hand(self.side).with(
                        piece.kind,
                        self.hand(self.side).holds(piece.kind) - 1,
                    ),
                );
                Diagram { squares: self.squares.update(to.ix(), Some(piece)), ..given }
            },
        };
        Diagram { side: self.side.other(), ..after }
    }
}

/// `color`'s king.
pub open spec fn king_of(color: Color) -> Piece {
    Piece { kind: PieceKind::King, color }
}

/// What a shogi set holds of a kind, promoted pieces counting as what they
/// promoted from.
pub open spec fn set_holds(kind: PieceKind) -> int {
    match kind {
        PieceKind::Pawn => 18,
        PieceKind::Lance => 4,
        PieceKind::Knight => 4,
        PieceKind::Silver => 4,
        PieceKind::Gold => 4,
        PieceKind::Bishop => 2,
        PieceKind::Rook => 2,
        _ => 0,
    }
}

/// Whether the square holds a piece of `kind`, promoted or not.
pub open spec fn is_of(square: Option<Piece>, kind: PieceKind) -> bool {
    square is Some && square->0.kind.base() == kind
}

/// How many of the squares hold a piece of `kind`, promoted or not.
pub open spec fn standing(squares: Seq<Option<Piece>>, kind: PieceKind) -> nat
    decreases squares.len(),
{
    if squares.len() == 0 {
        0
    } else {
        standing(squares.drop_last(), kind) + if is_of(squares.last(), kind) {
            1nat
        } else {
            0nat
        }
    }
}

/// Changing one square changes the count by what that square held and holds.
pub proof fn lemma_standing_update(
    squares: Seq<Option<Piece>>,
    i: int,
    now: Option<Piece>,
    kind: PieceKind,
)
    requires
        0 <= i < squares.len(),
    ensures
        standing(squares.update(i, now), kind) == standing(squares, kind) + (if is_of(now, kind) {
            1int
        } else {
            0
        }) - (if is_of(squares[i], kind) {
            1int
        } else {
            0
        }),
    decreases squares.len(),
{
    let changed = squares.update(i, now);
    if i == squares.len() - 1 {
        assert(changed.drop_last() =~= squares.drop_last());
    } else {
        assert(changed.drop_last() =~= squares.drop_last().update(i, now));
        lemma_standing_update(squares.drop_last(), i, now, kind);
    }
}

/// A square that holds a piece of `kind` is counted.
pub proof fn lemma_standing_counts(squares: Seq<Option<Piece>>, i: int, kind: PieceKind)
    requires
        0 <= i < squares.len(),
        is_of(squares[i], kind),
    ensures
        standing(squares, kind) >= 1,
    decreases squares.len(),
{
    if i < squares.len() - 1 {
        lemma_standing_counts(squares.drop_last(), i, kind);
    }
}

/// No move makes a piece or loses one: what a move can be carried out on holds
/// as many of each kind afterwards as before.
pub proof fn law_a_move_conserves_the_pieces(d: Diagram, mv: Move, kind: PieceKind)
    requires
        d.squares.len() == 81,
        d.can_play(mv),
        kind.droppable(),
        mv matches Move::Normal { to, .. } ==> d.at(to) matches Some(victim) ==> d.hand(
            d.side,
        ).holds(victim.kind.base()) < 255,
    ensures
        d.played(mv).census(kind) == d.census(kind),
{
    let hand = d.hand(d.side);
    let after = d.played(mv);
    match mv {
        Move::Normal { from, to, promote } => {
            let placed = d.placed(from, promote);
            let lifted = d.squares.update(from.ix(), None);
            lemma_standing_update(d.squares, from.ix(), None, kind);
            lemma_standing_update(lifted, to.ix(), Some(placed), kind);
            assert(lifted[to.ix()] == d.squares[to.ix()]);
            assert(placed.kind.base() == d.at(from)->0.kind.base());
            assert(after.squares == lifted.update(to.ix(), Some(placed)));
            assert(after.hand(d.side.other()) == d.hand(d.side.other()));
            if let Some(victim) = d.at(to) {
                let base = victim.kind.base();
                lemma_hand_with(hand, base, hand.holds(base) + 1, kind);
                assert(after.hand(d.side) == hand.with(base, hand.holds(base) + 1));
            } else {
                assert(after.hand(d.side) == hand);
            }
        },
        Move::Drop { piece, to } => {
            lemma_standing_update(d.squares, to.ix(), Some(piece), kind);
            lemma_hand_with(hand, piece.kind, hand.holds(piece.kind) - 1, kind);
            assert(after.squares == d.squares.update(to.ix(), Some(piece)));
            assert(after.hand(d.side) == hand.with(piece.kind, hand.holds(piece.kind) - 1));
            assert(after.hand(d.side.other()) == d.hand(d.side.other()));
        },
    }
}

/// A move leaves the kings where they are taken to be, and gives no side a king
/// more than it had.
pub proof fn law_a_move_keeps_track_of_the_kings(d: Diagram, mv: Move)
    requires
        d.well_formed(),
        d.can_play(mv),
    ensures
        d.played(mv).well_formed(),
        d.lone_king(Color::Black) ==> d.played(mv).lone_king(Color::Black),
        d.lone_king(Color::White) ==> d.played(mv).lone_king(Color::White),
{
    let after = d.played(mv);
    assert(after.squares.len() == 81);
    match mv {
        Move::Normal { from, to, promote } => {
            assert(after.squares[to.ix()] == Some(d.placed(from, promote)));
            assert forall|i: int| 0 <= i < 81 && i != to.ix() implies #[trigger] after.squares[i]
                == if i == from.ix() {
                None
            } else {
                d.squares[i]
            } by {}
        },
        Move::Drop { piece, to } => {
            assert(after.squares[to.ix()] == Some(piece));
            assert forall|i: int| 0 <= i < 81 && i != to.ix() implies #[trigger] after.squares[i]
                == d.squares[i] by {}
        },
    }
    lemma_king_survives(d, mv, Color::Black);
    lemma_king_survives(d, mv, Color::White);
}

proof fn lemma_king_survives(d: Diagram, mv: Move, color: Color)
    requires
        d.well_formed(),
        d.can_play(mv),
    ensures
        d.played(mv).tracks_king(color),
        d.lone_king(color) ==> d.played(mv).lone_king(color),
{
    let after = d.played(mv);
    match mv {
        Move::Normal { from, to, promote } => {
            let placed = d.placed(from, promote);
            assert(after.squares == d.squares.update(from.ix(), None).update(to.ix(), Some(placed)));
            assert(d.squares[from.ix()] == d.at(from));
            if placed == king_of(color) {
                assert(after.king(color) == Some(to));
                if d.lone_king(color) {
                    assert forall|i: int, j: int|
                        0 <= i < 81 && 0 <= j < 81 && #[trigger] after.squares[i] == Some(
                            king_of(color),
                        ) && #[trigger] after.squares[j] == Some(king_of(color)) implies i == j by {
                        assert(i == to.ix() || d.squares[i] == Some(king_of(color)));
                        assert(j == to.ix() || d.squares[j] == Some(king_of(color)));
                    }
                }
            } else {
                assert(after.king(color) == d.king(color));
            }
        },
        Move::Drop { piece, to } => {
            assert(after.squares == d.squares.update(to.ix(), Some(piece)));
            assert(after.king(color) == d.king(color));
        },
    }
}

/// A move leaves the position one of a real shogi set, with at most one king
/// to a side.
pub proof fn law_a_move_keeps_the_position_sound(d: Diagram, mv: Move)
    requires
        d.sound(),
        d.can_play(mv),
    ensures
        d.played(mv).sound(),
{
    let after = d.played(mv);
    lemma_room_for_the_victim(d, mv);
    assert forall|kind: PieceKind| kind.droppable() implies #[trigger] after.census(kind)
        <= set_holds(kind) by {
        law_a_move_conserves_the_pieces(d, mv, kind);
        assert(d.census(kind) <= set_holds(kind));
    }
    law_a_move_keeps_track_of_the_kings(d, mv);
}

/// A piece that is taken leaves room for one more of its kind in the hand.
pub proof fn lemma_room_for_the_victim(d: Diagram, mv: Move)
    requires
        d.sound(),
        d.can_play(mv),
    ensures
        mv matches Move::Normal { to, .. } ==> d.at(to) matches Some(victim) ==> d.hand(
            d.side,
        ).holds(victim.kind.base()) < 18,
{
    if let Move::Normal { to, .. } = mv {
        if let Some(victim) = d.at(to) {
            let kind = victim.kind.base();
            lemma_standing_counts(d.squares, to.ix(), kind);
            assert(d.census(kind) <= set_holds(kind));
        }
    }
}

/// The piece that stands on a place at the start of a game.
pub open spec fn start_square(place: int) -> Option<Piece> {
    let file = place / 9 + 1;
    let rank = place % 9 + 1;
    let back = if file == 1 || file == 9 {
        PieceKind::Lance
    } else if file == 2 || file == 8 {
        PieceKind::Knight
    } else if file == 3 || file == 7 {
        PieceKind::Silver
    } else if file == 4 || file == 6 {
        PieceKind::Gold
    } else {
        PieceKind::King
    };
    if rank == 1 {
        Some(Piece { kind: back, color: Color::White })
    } else if rank == 9 {
        Some(Piece { kind: back, color: Color::Black })
    } else if rank == 3 {
        Some(Piece { kind: PieceKind::Pawn, color: Color::White })
    } else if rank == 7 {
        Some(Piece { kind: PieceKind::Pawn, color: Color::Black })
    } else if rank == 2 && file == 2 {
        Some(Piece { kind: PieceKind::Bishop, color: Color::White })
    } else if rank == 2 && file == 8 {
        Some(Piece { kind: PieceKind::Rook, color: Color::White })
    } else if rank == 8 && file == 2 {
        Some(Piece { kind: PieceKind::Rook, color: Color::Black })
    } else if rank == 8 && file == 8 {
        Some(Piece { kind: PieceKind::Bishop, color: Color::Black })
    } else {
        None
    }
}

/// Whether the position is the one that a game starts from.
pub open spec fn is_start(d: Diagram) -> bool {
    &&& d.squares == Seq::new(81, |i: int| start_square(i))
    &&& d.black == Hand::nothing()
    &&& d.white == Hand::nothing()
    &&& d.black_king is Some && d.black_king->0.ix() == 44
    &&& d.white_king is Some && d.white_king->0.ix() == 36
    &&& d.side == Color::Black
}

/// The count over two runs of squares is the sum of the two counts.
pub proof fn lemma_standing_concat(
    left: Seq<Option<Piece>>,
    right: Seq<Option<Piece>>,
    kind: PieceKind,
)
    ensures
        standing(left + right, kind) == standing(left, kind) + standing(right, kind),
    decreases right.len(),
{
    if right.len() == 0 {
        assert(left + right =~= left);
    } else {
        assert((left + right).drop_last() =~= left + right.drop_last());
        lemma_standing_concat(left, right.drop_last(), kind);
    }
}

/// One file of the starting position.
spec fn start_file(file: int) -> Seq<Option<Piece>> {
    Seq::new(9, |i: int| start_square(file * 9 + i))
}

spec fn tally(square: Option<Piece>, kind: PieceKind) -> nat {
    if is_of(square, kind) {
        1
    } else {
        0
    }
}

/// Counting one square more.
pub proof fn lemma_standing_step(squares: Seq<Option<Piece>>, i: int, kind: PieceKind)
    requires
        0 <= i < squares.len(),
    ensures
        standing(squares.take(i + 1), kind) == standing(squares.take(i), kind) + if is_of(
            squares[i],
            kind,
        ) {
            1nat
        } else {
            0nat
        },
{
    assert(squares.take(i + 1).drop_last() =~= squares.take(i));
}

proof fn lemma_start_file(file: int, kind: PieceKind)
    requires
        0 <= file < 9,
    ensures
        standing(start_file(file), kind) == tally(start_square(file * 9), kind) + tally(
            start_square(file * 9 + 1),
            kind,
        ) + tally(start_square(file * 9 + 7), kind) + tally(start_square(file * 9 + 8), kind)
            + if kind == PieceKind::Pawn {
            2nat
        } else {
            0nat
        },
{
    let s = start_file(file);
    assert(s.take(0) =~= Seq::empty());
    assert(s.take(9) =~= s);
    lemma_standing_step(s, 0, kind);
    lemma_standing_step(s, 1, kind);
    lemma_standing_step(s, 2, kind);
    lemma_standing_step(s, 3, kind);
    lemma_standing_step(s, 4, kind);
    lemma_standing_step(s, 5, kind);
    lemma_standing_step(s, 6, kind);
    lemma_standing_step(s, 7, kind);
    lemma_standing_step(s, 8, kind);
    assert(s[2] == start_square(file * 9 + 2));
    assert(s[6] == start_square(file * 9 + 6));
    assert(is_of(s[2], kind) == (kind == PieceKind::Pawn));
    assert(is_of(s[6], kind) == (kind == PieceKind::Pawn));
    assert(s[3] is None && s[4] is None && s[5] is None);
}

spec fn start_files(files: int) -> Seq<Option<Piece>>
    decreases files,
{
    if files <= 0 {
        Seq::empty()
    } else {
        start_files(files - 1) + start_file(files - 1)
    }
}

proof fn lemma_start_files(files: int)
    requires
        0 <= files <= 9,
    ensures
        start_files(files) == Seq::new((files * 9) as nat, |i: int| start_square(i)),
    decreases files,
{
    if files > 0 {
        lemma_start_files(files - 1);
    }
    assert(start_files(files) =~= Seq::new((files * 9) as nat, |i: int| start_square(i)));
}

/// A game starts from a sound position.
pub proof fn law_the_start_is_sound(d: Diagram)
    requires
        is_start(d),
    ensures
        d.sound(),
{
    lemma_start_files(9);
    assert forall|kind: PieceKind| kind.droppable() implies #[trigger] d.census(kind) <= set_holds(
        kind,
    ) by {
        assert(start_files(0) =~= Seq::empty());
        reveal_with_fuel(start_files, 10);
        lemma_standing_concat(start_files(0), start_file(0), kind);
        lemma_standing_concat(start_files(1), start_file(1), kind);
        lemma_standing_concat(start_files(2), start_file(2), kind);
        lemma_standing_concat(start_files(3), start_file(3), kind);
        lemma_standing_concat(start_files(4), start_file(4), kind);
        lemma_standing_concat(start_files(5), start_file(5), kind);
        lemma_standing_concat(start_files(6), start_file(6), kind);
        lemma_standing_concat(start_files(7), start_file(7), kind);
        lemma_standing_concat(start_files(8), start_file(8), kind);
        lemma_start_file(0, kind);
        lemma_start_file(1, kind);
        lemma_start_file(2, kind);
        lemma_start_file(3, kind);
        lemma_start_file(4, kind);
        lemma_start_file(5, kind);
        lemma_start_file(6, kind);
        lemma_start_file(7, kind);
        lemma_start_file(8, kind);
        assert(standing(start_files(9), kind) == standing(d.squares, kind));
    }
}

/// A move does what it says. A piece that moves leaves its square empty and stands
/// on the other, promoted if it says so; what stood there is in the mover's hand,
/// unpromoted. A piece that is dropped stands on its square and is one less in the
/// hand. Everything else stays where it was, and it is the other side's turn.
pub proof fn law_a_move_does_what_it_says(d: Diagram, mv: Move)
    requires
        d.squares.len() == 81,
        d.can_play(mv),
        mv matches Move::Normal { to, .. } ==> d.at(to) matches Some(victim) ==> d.hand(
            d.side,
        ).holds(victim.kind.base()) < 255,
    ensures
        ({
            let after = d.played(mv);
            &&& after.side == d.side.other()
            &&& after.squares.len() == 81
            &&& after.hand(d.side.other()) == d.hand(d.side.other())
            &&& mv matches Move::Normal { from, to, promote } ==> {
                &&& after.at(from) is None
                &&& after.at(to) is Some
                &&& after.at(to)->0.color == d.side
                &&& promote ==> Some(after.at(to)->0.kind) == d.at(from)->0.kind.promoted()
                &&& !promote ==> after.at(to) == d.at(from)
                &&& forall|i: int|
                    0 <= i < 81 && i != from.ix() && i != to.ix() ==> #[trigger] after.squares[i]
                        == d.squares[i]
                &&& forall|kind: PieceKind|
                    kind.droppable() ==> #[trigger] after.hand(d.side).holds(kind) == d.hand(
                        d.side,
                    ).holds(kind) + (if d.at(to) is Some && d.at(to)->0.kind.base() == kind {
                        1int
                    } else {
                        0
                    })
            }
            &&& mv matches Move::Drop { piece, to } ==> {
                &&& after.at(to) == Some(piece)
                &&& forall|i: int|
                    0 <= i < 81 && i != to.ix() ==> #[trigger] after.squares[i] == d.squares[i]
                &&& forall|kind: PieceKind|
                    kind.droppable() ==> #[trigger] after.hand(d.side).holds(kind) == d.hand(
                        d.side,
                    ).holds(kind) - (if piece.kind == kind {
                        1int
                    } else {
                        0
                    })
            }
        }),
{
    let hand = d.hand(d.side);
    let after = d.played(mv);
    match mv {
        Move::Normal { from, to, promote } => {
            assert(from.ix() != to.ix());
            if let Some(victim) = d.at(to) {
                let base = victim.kind.base();
                assert forall|kind: PieceKind| kind.droppable() implies #[trigger] after.hand(
                    d.side,
                ).holds(kind) == hand.holds(kind) + (if base == kind {
                    1int
                } else {
                    0
                }) by {
                    lemma_hand_with(hand, base, hand.holds(base) + 1, kind);
                }
            }
        },
        Move::Drop { piece, to } => {
            assert forall|kind: PieceKind| kind.droppable() implies #[trigger] after.hand(
                d.side,
            ).holds(kind) == hand.holds(kind) - (if piece.kind == kind {
                1int
            } else {
                0
            }) by {
                lemma_hand_with(hand, piece.kind, hand.holds(piece.kind) - 1, kind);
            }
        },
    }
}

/// A square more counts one piece more of its kind, a promoted one as what it
/// promoted from; and what is held in hand counts as well.
pub proof fn law_each_piece_counts_once(
    squares: Seq<Option<Piece>>,
    square: Option<Piece>,
    kind: PieceKind,
    d: Diagram,
)
    ensures
        standing(Seq::empty(), kind) == 0,
        standing(squares.push(square), kind) == standing(squares, kind) + (if square is Some
            && square->0.kind.base() == kind {
            1int
        } else {
            0
        }),
        d.census(kind) == standing(d.squares, kind) + d.black.holds(kind) + d.white.holds(kind),
{
    assert(squares.push(square).drop_last() =~= squares);
}

} // verus!
