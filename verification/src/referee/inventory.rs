//! The piece census: what a position holds of each kind, against what a shogi
//! set holds and against what a game can represent.

use vstd::prelude::*;

use crate::diagram::{king_of, lemma_standing_step, set_holds, standing, Diagram};
use crate::position::PartialPosition;
use crate::shogi::{Color, Piece, PieceKind, Square, HAND_KINDS};
use crate::text::{digits, push_number};

verus! {

/// The most of one kind that a game can hold, board and hands together.
pub const REPRESENTABLE: u32 = 99;

/// A kind of which a position holds more than a shogi set does: `count`, where
/// a set holds `total`.
#[derive(Clone, Copy, Debug, PartialEq, Eq, Structural)]
pub struct ImpossiblePieceCount {
    pub kind: PieceKind,
    pub count: u32,
    pub total: u32,
}

/// A kind of which a position holds more than a game can represent.
#[derive(Clone, Copy, Debug, PartialEq, Eq, Structural)]
pub struct UnrepresentableRoot {
    pub kind: PieceKind,
    pub count: u32,
}

/// The name of a kind.
pub open spec fn kind_name(kind: PieceKind) -> Seq<char> {
    match kind {
        PieceKind::Pawn => "Pawn"@,
        PieceKind::Lance => "Lance"@,
        PieceKind::Knight => "Knight"@,
        PieceKind::Silver => "Silver"@,
        PieceKind::Gold => "Gold"@,
        PieceKind::Bishop => "Bishop"@,
        PieceKind::Rook => "Rook"@,
        PieceKind::King => "King"@,
        PieceKind::ProPawn => "ProPawn"@,
        PieceKind::ProLance => "ProLance"@,
        PieceKind::ProKnight => "ProKnight"@,
        PieceKind::ProSilver => "ProSilver"@,
        PieceKind::ProBishop => "ProBishop"@,
        PieceKind::ProRook => "ProRook"@,
    }
}

pub fn name_of(kind: PieceKind) -> (r: &'static str)
    ensures
        r@ == kind_name(kind),
{
    match kind {
        PieceKind::Pawn => "Pawn",
        PieceKind::Lance => "Lance",
        PieceKind::Knight => "Knight",
        PieceKind::Silver => "Silver",
        PieceKind::Gold => "Gold",
        PieceKind::Bishop => "Bishop",
        PieceKind::Rook => "Rook",
        PieceKind::King => "King",
        PieceKind::ProPawn => "ProPawn",
        PieceKind::ProLance => "ProLance",
        PieceKind::ProKnight => "ProKnight",
        PieceKind::ProSilver => "ProSilver",
        PieceKind::ProBishop => "ProBishop",
        PieceKind::ProRook => "ProRook",
    }
}

impl ImpossiblePieceCount {
    /// The finding in words.
    pub fn describe(&self) -> (r: String)
        ensures
            r@ == digits(self.count as nat) + " "@ + kind_name(self.kind)
                + " on the board and in hand, but a set holds "@ + digits(self.total as nat),
    {
        let mut text = String::new();
        push_number(&mut text, self.count as u128);
        text.append(" ");
        text.append(name_of(self.kind));
        text.append(" on the board and in hand, but a set holds ");
        push_number(&mut text, self.total as u128);
        assert(text@ =~= digits(self.count as nat) + " "@ + kind_name(self.kind)
            + " on the board and in hand, but a set holds "@ + digits(self.total as nat));
        text
    }
}

impl UnrepresentableRoot {
    /// The finding in words.
    pub fn describe(&self) -> (r: String)
        ensures
            r@ == digits(self.count as nat) + " "@ + kind_name(self.kind)
                + " on the board and in hand, past the 99 a game can hold"@,
    {
        let mut text = String::new();
        push_number(&mut text, self.count as u128);
        text.append(" ");
        text.append(name_of(self.kind));
        text.append(" on the board and in hand, past the 99 a game can hold");
        assert(text@ =~= digits(self.count as nat) + " "@ + kind_name(self.kind)
            + " on the board and in hand, past the 99 a game can hold"@);
        text
    }
}

/// The seven kinds that a hand can hold, in order.
pub open spec fn hand_kind(i: int) -> PieceKind {
    if i == 0 {
        PieceKind::Pawn
    } else if i == 1 {
        PieceKind::Lance
    } else if i == 2 {
        PieceKind::Knight
    } else if i == 3 {
        PieceKind::Silver
    } else if i == 4 {
        PieceKind::Gold
    } else if i == 5 {
        PieceKind::Bishop
    } else {
        PieceKind::Rook
    }
}

/// Every kind's count, board and both hands together, a promoted piece counting
/// as the one it promoted from.
fn census(position: &PartialPosition) -> (seen: Vec<u32>)
    ensures
        seen@.len() == 14,
        forall|kind: PieceKind|
            kind.droppable() ==> seen@[kind.ix()] == #[trigger] position@.diagram.census(kind),
{
    position.is_a_position();
    let ghost d = position@.diagram;
    let mut seen: Vec<u32> = vec![0u32; 14];
    let mut i: usize = 0;
    assert(d.squares.take(0) =~= Seq::empty());
    while i < 81
        invariant
            i <= 81,
            seen@.len() == 14,
            d == position@.diagram,
            d.squares.len() == 81,
            forall|kind: PieceKind|
                seen@[kind.ix()] == #[trigger] standing(d.squares.take(i as int), kind),
            forall|k: int| 0 <= k < 14 ==> #[trigger] seen@[k] <= i,
        decreases 81 - i,
    {
        let ghost before = seen@;
        if let Some(piece) = position.piece_at(Square::at(i)) {
            let base = piece.kind.unpromoted();
            let slot: usize = base.array_index();
            let count: u32 = seen[slot];
            seen.set(slot, count + 1);
        }
        proof {
            assert forall|kind: PieceKind| seen@[kind.ix()] == #[trigger] standing(
                d.squares.take(i as int + 1),
                kind,
            ) by {
                lemma_standing_step(d.squares, i as int, kind);
                assert(before[kind.ix()] == standing(d.squares.take(i as int), kind));
                if let Some(piece) = d.squares[i as int] {
                    assert((kind.ix() == piece.kind.base().ix()) == (kind == piece.kind.base()));
                }
            }
        }
        i += 1;
    }
    assert(d.squares.take(81) =~= d.squares);
    let black = position.hand_of_a_player(Color::Black);
    let white = position.hand_of_a_player(Color::White);
    let mut j: usize = 0;
    while j < 7
        invariant
            j <= 7,
            seen@.len() == 14,
            d == position@.diagram,
            black == d.black,
            white == d.white,
            forall|k: int|
                j <= k < 7 ==> seen@[hand_kind(k).ix()] == #[trigger] standing(
                    d.squares,
                    hand_kind(k),
                ),
            forall|k: int| j <= k < 7 ==> #[trigger] seen@[k] <= 81,
            forall|k: int|
                0 <= k < j ==> seen@[hand_kind(k).ix()] == #[trigger] d.census(hand_kind(k)),
        decreases 7 - j,
    {
        let kind = HAND_KINDS[j];
        assert(kind == hand_kind(j as int));
        let slot: usize = kind.array_index();
        let held_black: u8 = match black.count(kind) {
            Some(n) => n,
            None => 0,
        };
        let held_white: u8 = match white.count(kind) {
            Some(n) => n,
            None => 0,
        };
        let count: u32 = seen[slot];
        assert(count == standing(d.squares, hand_kind(j as int)));
        seen.set(slot, count + held_black as u32 + held_white as u32);
        assert(seen@[slot as int] == d.census(hand_kind(j as int)));
        j += 1;
    }
    proof {
        assert forall|kind: PieceKind| kind.droppable() implies seen@[kind.ix()]
            == #[trigger] d.census(kind) by {
            assert(hand_kind(kind.ix()) == kind);
        }
    }
    seen
}

/// The first of the seven kinds, from the `i`th on, that is counted above its
/// bound.
pub open spec fn first_over(d: Diagram, bound: spec_fn(PieceKind) -> int, i: int) -> Option<PieceKind>
    decreases 7 - i,
{
    if i < 0 || i >= 7 {
        None
    } else if d.census(hand_kind(i)) > bound(hand_kind(i)) {
        Some(hand_kind(i))
    } else {
        first_over(d, bound, i + 1)
    }
}

/// The first kind of which a position holds more than a shogi set does.
pub open spec fn over_a_set(d: Diagram) -> Option<PieceKind> {
    first_over(d, |kind: PieceKind| set_holds(kind), 0)
}

/// The first kind of which a position holds more than a game can represent.
pub open spec fn over_the_limit(d: Diagram) -> Option<PieceKind> {
    first_over(d, |kind: PieceKind| REPRESENTABLE as int, 0)
}

fn set_total(kind: PieceKind) -> (r: u32)
    ensures
        r == set_holds(kind),
{
    match kind {
        PieceKind::Pawn => 18,
        PieceKind::Lance => 4,
        PieceKind::Knight => 4,
        PieceKind::Silver => 4,
        PieceKind::Gold => 4,
        PieceKind::Bishop => 2,
        PieceKind::Rook => 2,
        _ => 0,
    }
}

/// The first kind of which `position` holds more than a shogi set does, if any.
pub fn over_inventory(position: &PartialPosition) -> (r: Option<ImpossiblePieceCount>)
    ensures
        match r {
            Some(found) => {
                &&& over_a_set(position@.diagram) == Some(found.kind)
                &&& found.count == position@.diagram.census(found.kind)
                &&& found.total == set_holds(found.kind)
            },
            None => over_a_set(position@.diagram) is None && position@.diagram.fits_a_set(),
        },
{
    let seen = census(position);
    let ghost bound = |kind: PieceKind| set_holds(kind);
    let mut i: usize = 0;
    while i < 7
        invariant
            i <= 7,
            seen@.len() == 14,
            bound == (|kind: PieceKind| set_holds(kind)),
            forall|kind: PieceKind|
                kind.droppable() ==> seen@[kind.ix()] == #[trigger] position@.diagram.census(kind),
            over_a_set(position@.diagram) == first_over(position@.diagram, bound, i as int),
            forall|k: int|
                0 <= k < i ==> #[trigger] position@.diagram.census(hand_kind(k)) <= set_holds(
                    hand_kind(k),
                ),
        decreases 7 - i,
    {
        let kind = HAND_KINDS[i];
        assert(kind == hand_kind(i as int));
        let count: u32 = seen[kind.array_index()];
        assert(count == position@.diagram.census(kind));
        let total: u32 = set_total(kind);
        if count > total {
            return Some(ImpossiblePieceCount { kind, count, total });
        }
        i += 1;
    }
    proof {
        assert forall|kind: PieceKind| kind.droppable() implies #[trigger] position@.diagram.census(
            kind,
        ) <= set_holds(kind) by {
            assert(hand_kind(kind.ix()) == kind);
        }
    }
    None
}

/// How many of the squares hold a king of `color`.
pub open spec fn kings(squares: Seq<Option<Piece>>, color: Color) -> nat
    decreases squares.len(),
{
    if squares.len() == 0 {
        0
    } else {
        kings(squares.drop_last(), color) + if squares.last() == Some(king_of(color)) {
            1nat
        } else {
            0nat
        }
    }
}

proof fn lemma_a_king_counts(squares: Seq<Option<Piece>>, i: int, color: Color)
    requires
        0 <= i < squares.len(),
        squares[i] == Some(king_of(color)),
    ensures
        kings(squares, color) >= 1,
    decreases squares.len(),
{
    if i < squares.len() - 1 {
        lemma_a_king_counts(squares.drop_last(), i, color);
    }
}

proof fn lemma_two_kings_count(squares: Seq<Option<Piece>>, i: int, j: int, color: Color)
    requires
        0 <= i < j < squares.len(),
        squares[i] == Some(king_of(color)),
        squares[j] == Some(king_of(color)),
    ensures
        kings(squares, color) >= 2,
    decreases squares.len(),
{
    if j < squares.len() - 1 {
        lemma_two_kings_count(squares.drop_last(), i, j, color);
    } else {
        lemma_a_king_counts(squares.drop_last(), i, color);
    }
}

/// A side with at most one king counted has no second one.
pub proof fn lemma_counted_alone(d: Diagram, color: Color)
    requires
        d.squares.len() == 81,
        kings(d.squares, color) <= 1,
    ensures
        d.lone_king(color),
{
    assert forall|i: int, j: int|
        0 <= i < 81 && 0 <= j < 81 && #[trigger] d.squares[i] == Some(king_of(color))
            && #[trigger] d.squares[j] == Some(king_of(color)) implies i == j by {
        if i < j {
            lemma_two_kings_count(d.squares, i, j, color);
        } else if j < i {
            lemma_two_kings_count(d.squares, j, i, color);
        }
    }
}

proof fn lemma_counted_once(squares: Seq<Option<Piece>>, color: Color)
    requires
        forall|i: int, j: int|
            0 <= i < squares.len() && 0 <= j < squares.len() && #[trigger] squares[i] == Some(
                king_of(color),
            ) && #[trigger] squares[j] == Some(king_of(color)) ==> i == j,
    ensures
        kings(squares, color) <= 1,
    decreases squares.len(),
{
    if squares.len() > 0 {
        let head = squares.drop_last();
        assert forall|i: int, j: int|
            0 <= i < head.len() && 0 <= j < head.len() && #[trigger] head[i] == Some(king_of(color))
                && #[trigger] head[j] == Some(king_of(color)) implies i == j by {
            assert(squares[i] == head[i]);
            assert(squares[j] == head[j]);
        }
        lemma_counted_once(head, color);
        if squares.last() == Some(king_of(color)) {
            lemma_no_king_counts_nothing(head, squares, color);
        }
    }
}

proof fn lemma_no_king_counts_nothing(
    head: Seq<Option<Piece>>,
    squares: Seq<Option<Piece>>,
    color: Color,
)
    requires
        head.len() < squares.len(),
        forall|i: int| 0 <= i < head.len() ==> #[trigger] head[i] == squares[i],
        squares.last() == Some(king_of(color)),
        forall|i: int, j: int|
            0 <= i < squares.len() && 0 <= j < squares.len() && #[trigger] squares[i] == Some(
                king_of(color),
            ) && #[trigger] squares[j] == Some(king_of(color)) ==> i == j,
    ensures
        kings(head, color) == 0,
    decreases head.len(),
{
    if head.len() > 0 {
        assert(head.last() == squares[head.len() - 1]);
        lemma_no_king_counts_nothing(head.drop_last(), squares, color);
    }
}

/// How many kings of `color` stand on the board.
pub fn count_kings(position: &PartialPosition, color: Color) -> (r: u32)
    ensures
        r == kings(position@.diagram.squares, color),
{
    position.is_a_position();
    let ghost squares = position@.diagram.squares;
    let mut count: u32 = 0;
    let mut i: usize = 0;
    assert(squares.take(0) =~= Seq::empty());
    while i < 81
        invariant
            i <= 81,
            squares == position@.diagram.squares,
            squares.len() == 81,
            count == kings(squares.take(i as int), color),
            count <= i,
        decreases 81 - i,
    {
        assert(squares.take(i as int + 1).drop_last() =~= squares.take(i as int));
        if let Some(piece) = position.piece_at(Square::at(i)) {
            if piece.kind == PieceKind::King && piece.color == color {
                count += 1;
            }
        }
        i += 1;
    }
    assert(squares.take(81) =~= squares);
    count
}

proof fn lemma_none_over(d: Diagram, bound: spec_fn(PieceKind) -> int, i: int)
    requires
        0 <= i <= 7,
        forall|kind: PieceKind| kind.droppable() ==> #[trigger] d.census(kind) <= bound(kind),
    ensures
        first_over(d, bound, i) is None,
    decreases 7 - i,
{
    if i < 7 {
        assert(d.census(hand_kind(i)) <= bound(hand_kind(i)));
        lemma_none_over(d, bound, i + 1);
    }
}

/// A sound position holds no more of a kind than a set does, and at most one
/// king to a side.
pub proof fn lemma_sound_counts(d: Diagram)
    requires
        d.sound(),
    ensures
        over_a_set(d) is None,
        kings(d.squares, Color::Black) <= 1,
        kings(d.squares, Color::White) <= 1,
{
    lemma_none_over(d, |kind: PieceKind| set_holds(kind), 0);
    lemma_counted_once(d.squares, Color::Black);
    lemma_counted_once(d.squares, Color::White);
}

/// Whether a game can hold as many pieces of each kind as the position has.
pub open spec fn representable(d: Diagram) -> bool {
    forall|kind: PieceKind| kind.droppable() ==> #[trigger] d.census(kind) <= REPRESENTABLE
}

/// The first kind of which `position` holds more than a game can represent, if
/// any.
pub fn unrepresentable(position: &PartialPosition) -> (r: Option<UnrepresentableRoot>)
    ensures
        match r {
            Some(found) => {
                &&& over_the_limit(position@.diagram) == Some(found.kind)
                &&& found.count == position@.diagram.census(found.kind)
                &&& !representable(position@.diagram)
            },
            None => over_the_limit(position@.diagram) is None && representable(position@.diagram),
        },
{
    let seen = census(position);
    let ghost bound = |kind: PieceKind| REPRESENTABLE as int;
    let mut i: usize = 0;
    while i < 7
        invariant
            i <= 7,
            seen@.len() == 14,
            bound == (|kind: PieceKind| REPRESENTABLE as int),
            forall|kind: PieceKind|
                kind.droppable() ==> seen@[kind.ix()] == #[trigger] position@.diagram.census(kind),
            over_the_limit(position@.diagram) == first_over(position@.diagram, bound, i as int),
            forall|k: int|
                0 <= k < i ==> #[trigger] position@.diagram.census(hand_kind(k)) <= REPRESENTABLE,
        decreases 7 - i,
    {
        let kind = HAND_KINDS[i];
        assert(kind == hand_kind(i as int));
        let count: u32 = seen[kind.array_index()];
        assert(count == position@.diagram.census(kind));
        if count > REPRESENTABLE {
            return Some(UnrepresentableRoot { kind, count });
        }
        i += 1;
    }
    proof {
        assert forall|kind: PieceKind| kind.droppable() implies #[trigger] position@.diagram.census(
            kind,
        ) <= REPRESENTABLE by {
            assert(hand_kind(kind.ix()) == kind);
        }
    }
    None
}

proof fn lemma_first_over(d: Diagram, bound: spec_fn(PieceKind) -> int, i: int)
    requires
        0 <= i <= 7,
    ensures
        first_over(d, bound, i) is None ==> forall|k: int|
            i <= k < 7 ==> d.census(#[trigger] hand_kind(k)) <= bound(hand_kind(k)),
        first_over(d, bound, i) matches Some(kind) ==> exists|k: int|
            i <= k < 7 && kind == #[trigger] hand_kind(k) && d.census(kind) > bound(kind) && (
            forall|j: int| i <= j < k ==> d.census(#[trigger] hand_kind(j)) <= bound(hand_kind(j))),
    decreases 7 - i,
{
    if i < 7 {
        lemma_first_over(d, bound, i + 1);
        if d.census(hand_kind(i)) <= bound(hand_kind(i)) {
            if let Some(kind) = first_over(d, bound, i + 1) {
                let k = choose|k: int|
                    i + 1 <= k < 7 && kind == #[trigger] hand_kind(k) && d.census(kind) > bound(kind)
                        && (forall|j: int|
                        i + 1 <= j < k ==> d.census(#[trigger] hand_kind(j)) <= bound(
                            hand_kind(j),
                        ));
                assert(kind == hand_kind(k));
            }
        } else {
            assert(hand_kind(i) == hand_kind(i));
        }
    }
}

/// A position is within a shogi set if and only if it holds no more than eighteen
/// pawns, four of each of the lances, knights, silvers and golds, and two of each
/// of the bishops and rooks, on the board and in the hands together. What is named
/// otherwise is a kind that there are too many of.
pub proof fn law_a_set_is_counted_out(d: Diagram)
    ensures
        over_a_set(d) is None <==> {
            &&& d.census(PieceKind::Pawn) <= 18
            &&& d.census(PieceKind::Lance) <= 4
            &&& d.census(PieceKind::Knight) <= 4
            &&& d.census(PieceKind::Silver) <= 4
            &&& d.census(PieceKind::Gold) <= 4
            &&& d.census(PieceKind::Bishop) <= 2
            &&& d.census(PieceKind::Rook) <= 2
        },
        over_a_set(d) matches Some(kind) ==> kind.droppable() && d.census(kind) > set_holds(kind),
        over_the_limit(d) is None <==> {
            &&& d.census(PieceKind::Pawn) <= 99
            &&& d.census(PieceKind::Lance) <= 99
            &&& d.census(PieceKind::Knight) <= 99
            &&& d.census(PieceKind::Silver) <= 99
            &&& d.census(PieceKind::Gold) <= 99
            &&& d.census(PieceKind::Bishop) <= 99
            &&& d.census(PieceKind::Rook) <= 99
        },
        over_the_limit(d) matches Some(kind) ==> kind.droppable() && d.census(kind) > 99,
        over_a_set(d) is None ==> over_the_limit(d) is None,
{
    let set = |kind: PieceKind| set_holds(kind);
    let limit = |kind: PieceKind| REPRESENTABLE as int;
    lemma_first_over(d, set, 0);
    lemma_first_over(d, limit, 0);
    assert(hand_kind(0) == PieceKind::Pawn && hand_kind(1) == PieceKind::Lance && hand_kind(2)
        == PieceKind::Knight && hand_kind(3) == PieceKind::Silver && hand_kind(4) == PieceKind::Gold
        && hand_kind(5) == PieceKind::Bishop && hand_kind(6) == PieceKind::Rook);
}

/// A square more counts one king more if that side's king stands on it, and none
/// otherwise.
pub proof fn law_each_king_counts_once(squares: Seq<Option<Piece>>, square: Option<Piece>, color: Color)
    ensures
        kings(Seq::empty(), color) == 0,
        kings(squares.push(square), color) == kings(squares, color) + (if square is Some
            && square->0.kind == PieceKind::King && square->0.color == color {
            1int
        } else {
            0
        }),
{
    assert(squares.push(square).drop_last() =~= squares);
}

} // verus!
