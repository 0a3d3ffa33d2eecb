//! Material evaluation.

use vstd::prelude::*;

use crate::board::Board;
use crate::diagram::{
    lemma_room_for_the_victim, lemma_standing_step, set_holds, standing, Diagram,
};
use crate::search::score::Score;
use crate::shogi::{Color, Hand, Move, Piece, PieceKind, Square};

verus! {

/// What a piece is worth on the board.
pub open spec fn on_board_value(kind: PieceKind) -> int {
    match kind {
        PieceKind::Pawn => 100,
        PieceKind::Lance => 350,
        PieceKind::Knight => 400,
        PieceKind::Silver => 550,
        PieceKind::Gold => 600,
        PieceKind::Bishop => 850,
        PieceKind::Rook => 1000,
        PieceKind::King => 0,
        PieceKind::ProPawn => 600,
        PieceKind::ProLance => 600,
        PieceKind::ProKnight => 600,
        PieceKind::ProSilver => 600,
        PieceKind::ProBishop => 1150,
        PieceKind::ProRook => 1350,
    }
}

/// What a piece is worth in hand.
pub open spec fn in_hand_value(kind: PieceKind) -> int {
    match kind {
        PieceKind::Pawn => 115,
        PieceKind::Lance => 400,
        PieceKind::Knight => 450,
        PieceKind::Silver => 610,
        PieceKind::Gold => 660,
        PieceKind::Bishop => 950,
        PieceKind::Rook => 1100,
        _ => 0,
    }
}

pub fn board_value(kind: PieceKind) -> (r: i32)
    ensures
        r == on_board_value(kind),
        0 <= r <= 1350,
{
    match kind {
        PieceKind::Pawn => 100,
        PieceKind::Lance => 350,
        PieceKind::Knight => 400,
        PieceKind::Silver => 550,
        PieceKind::Gold => 600,
        PieceKind::Bishop => 850,
        PieceKind::Rook => 1000,
        PieceKind::King => 0,
        PieceKind::ProPawn => 600,
        PieceKind::ProLance => 600,
        PieceKind::ProKnight => 600,
        PieceKind::ProSilver => 600,
        PieceKind::ProBishop => 1150,
        PieceKind::ProRook => 1350,
    }
}

pub fn hand_value(kind: PieceKind) -> (r: i32)
    ensures
        r == in_hand_value(kind),
        0 <= r <= 1100,
{
    match kind {
        PieceKind::Pawn => 115,
        PieceKind::Lance => 400,
        PieceKind::Knight => 450,
        PieceKind::Silver => 610,
        PieceKind::Gold => 660,
        PieceKind::Bishop => 950,
        PieceKind::Rook => 1100,
        _ => 0,
    }
}

/// What taking a piece is worth: its value on the board, which the opponent
/// loses, and its value in hand, unpromoted, which the taker gains.
pub open spec fn taking_is_worth(kind: PieceKind) -> int {
    on_board_value(kind) + in_hand_value(kind.base())
}

pub fn capture_gain(kind: PieceKind) -> (r: i32)
    ensures
        r == taking_is_worth(kind),
        0 <= r <= 2450,
{
    board_value(kind) + hand_value(kind.unpromoted())
}

/// What a square is worth to `side`.
pub open spec fn square_worth(square: Option<Piece>, side: Color) -> int {
    match square {
        None => 0,
        Some(piece) => if piece.color == side {
            on_board_value(piece.kind)
        } else {
            -on_board_value(piece.kind)
        },
    }
}

/// What the first `n` squares are worth to `side`.
pub open spec fn board_worth(squares: Seq<Option<Piece>>, side: Color, n: int) -> int
    decreases n,
{
    if n <= 0 {
        0
    } else {
        board_worth(squares, side, n - 1) + square_worth(squares[n - 1], side)
    }
}

/// What a hand is worth.
pub open spec fn hand_worth(hand: Hand) -> int {
    115 * hand.pawn + 400 * hand.lance + 450 * hand.knight + 610 * hand.silver + 660 * hand.gold
        + 950 * hand.bishop + 1100 * hand.rook
}

/// The material balance in centipawns, from the side to move.
pub open spec fn material(d: Diagram) -> int {
    board_worth(d.squares, d.side, 81) + hand_worth(d.hand(d.side)) - hand_worth(
        d.hand(d.side.other()),
    )
}

fn worth_in_hand(hand: Hand) -> (r: i32)
    ensures
        r == hand_worth(hand),
        0 <= r <= 1_100_000,
{
    115 * hand.pawn as i32 + 400 * hand.lance as i32 + 450 * hand.knight as i32 + 610
        * hand.silver as i32 + 660 * hand.gold as i32 + 950 * hand.bishop as i32 + 1100
        * hand.rook as i32
}

/// The material balance in centipawns, from the side to move. It never means
/// mate or repetition.
pub fn evaluate(board: &Board) -> (r: Score)
    ensures
        r.0 == material(board@),
        -25_680 <= r.0 <= 25_680,
{
    board.is_a_position();
    let us = board.side_to_move();
    let mut total: i32 = 0;
    let mut i: usize = 0;
    while i < 81
        invariant
            i <= 81,
            us == board@.side,
            total == board_worth(board@.squares, us, i as int),
            -1350 * i <= total <= 1350 * i,
        decreases 81 - i,
    {
        match board.piece_at(Square::at(i)) {
            None => {},
            Some(piece) => {
                if piece.color == us {
                    total = total + board_value(piece.kind);
                } else {
                    total = total - board_value(piece.kind);
                }
            },
        }
        i += 1;
    }
    let ours: i32 = worth_in_hand(board.hand(us));
    let theirs: i32 = worth_in_hand(board.hand(us.flip()));
    proof {
        law_material_stays_below_the_mates(board@);
    }
    Score(total + ours - theirs)
}

/// The most that a piece of a kind can be worth, on the board or in hand,
/// promoted or not.
spec fn cap(kind: PieceKind) -> int {
    match kind {
        PieceKind::Pawn => 600,
        PieceKind::Lance => 600,
        PieceKind::Knight => 600,
        PieceKind::Silver => 610,
        PieceKind::Gold => 660,
        PieceKind::Bishop => 1150,
        PieceKind::Rook => 1350,
        _ => 0,
    }
}

spec fn capped(squares: Seq<Option<Piece>>) -> nat {
    600 * standing(squares, PieceKind::Pawn) + 600 * standing(squares, PieceKind::Lance) + 600
        * standing(squares, PieceKind::Knight) + 610 * standing(squares, PieceKind::Silver) + 660
        * standing(squares, PieceKind::Gold) + 1150 * standing(squares, PieceKind::Bishop) + 1350
        * standing(squares, PieceKind::Rook)
}

proof fn lemma_board_worth_is_capped(squares: Seq<Option<Piece>>, side: Color, n: int)
    requires
        0 <= n <= squares.len(),
    ensures
        -capped(squares.take(n)) <= board_worth(squares, side, n) <= capped(squares.take(n)),
    decreases n,
{
    if n > 0 {
        lemma_board_worth_is_capped(squares, side, n - 1);
        lemma_standing_step(squares, n - 1, PieceKind::Pawn);
        lemma_standing_step(squares, n - 1, PieceKind::Lance);
        lemma_standing_step(squares, n - 1, PieceKind::Knight);
        lemma_standing_step(squares, n - 1, PieceKind::Silver);
        lemma_standing_step(squares, n - 1, PieceKind::Gold);
        lemma_standing_step(squares, n - 1, PieceKind::Bishop);
        lemma_standing_step(squares, n - 1, PieceKind::Rook);
        if let Some(piece) = squares[n - 1] {
            assert(on_board_value(piece.kind) <= cap(piece.kind.base()));
        }
    } else {
        assert(squares.take(0) =~= Seq::empty());
    }
}

/// No material balance of a real shogi set reaches the repetitions or the
/// mates.
pub proof fn law_material_stays_below_the_mates(d: Diagram)
    requires
        d.sound(),
    ensures
        -25_680 <= material(d) <= 25_680,
        !Score(material(d) as i32).means_mate(),
{
    lemma_board_worth_is_capped(d.squares, d.side, 81);
    assert(d.squares.take(81) =~= d.squares);
    assert(d.census(PieceKind::Pawn) <= set_holds(PieceKind::Pawn));
    assert(d.census(PieceKind::Lance) <= set_holds(PieceKind::Lance));
    assert(d.census(PieceKind::Knight) <= set_holds(PieceKind::Knight));
    assert(d.census(PieceKind::Silver) <= set_holds(PieceKind::Silver));
    assert(d.census(PieceKind::Gold) <= set_holds(PieceKind::Gold));
    assert(d.census(PieceKind::Bishop) <= set_holds(PieceKind::Bishop));
    assert(d.census(PieceKind::Rook) <= set_holds(PieceKind::Rook));
}

proof fn lemma_board_worth_flips(squares: Seq<Option<Piece>>, side: Color, n: int)
    ensures
        board_worth(squares, side.other(), n) == -board_worth(squares, side, n),
    decreases n,
{
    if n > 0 {
        lemma_board_worth_flips(squares, side, n - 1);
    }
}

/// The balance is the side to move's: seen from the other side it is the
/// opposite.
pub proof fn law_evaluation_is_from_the_side_to_move(d: Diagram)
    ensures
        material(Diagram { side: d.side.other(), ..d }) == -material(d),
{
    lemma_board_worth_flips(d.squares, d.side, 81);
}

/// What a move gains in material for the side that makes it: what it takes, what
/// the promotion adds, and what a piece loses when it leaves the hand.
pub open spec fn gained(d: Diagram, mv: Move) -> int {
    match mv {
        Move::Normal { from, to, promote } => {
            let taken = match d.at(to) {
                Some(victim) => taking_is_worth(victim.kind),
                None => 0,
            };
            taken + on_board_value(d.placed(from, promote).kind) - on_board_value(d.at(from)->0.kind)
        },
        Move::Drop { piece, .. } => on_board_value(piece.kind) - in_hand_value(piece.kind),
    }
}

proof fn lemma_board_worth_updated(
    squares: Seq<Option<Piece>>,
    place: int,
    square: Option<Piece>,
    side: Color,
    n: int,
)
    requires
        0 <= place < squares.len(),
        n <= squares.len(),
    ensures
        board_worth(squares.update(place, square), side, n) == board_worth(squares, side, n) + if place
            < n {
            square_worth(square, side) - square_worth(squares[place], side)
        } else {
            0
        },
    decreases n,
{
    if n > 0 {
        lemma_board_worth_updated(squares, place, square, side, n - 1);
    }
}

/// A move changes the balance by what it gains: seen from the opponent, who is
/// to move after it, the balance is the opposite of what it was with the gain.
pub proof fn law_a_move_gains_its_worth(d: Diagram, mv: Move)
    requires
        d.sound(),
        d.can_play(mv),
    ensures
        -material(d.played(mv)) == material(d) + gained(d, mv),
{
    let us = d.side;
    let after = d.played(mv);
    lemma_room_for_the_victim(d, mv);
    lemma_board_worth_flips(after.squares, us, 81);
    match mv {
        Move::Normal { from, to, promote } => {
            let placed = Some(d.placed(from, promote));
            let lifted = d.squares.update(from.ix(), None);
            lemma_board_worth_updated(d.squares, from.ix(), None, us, 81);
            lemma_board_worth_updated(lifted, to.ix(), placed, us, 81);
            assert(from.ix() != to.ix());
            if let Some(victim) = d.at(to) {
                lemma_hand_worth(
                    d.hand(us),
                    victim.kind.base(),
                    d.hand(us).holds(victim.kind.base()) + 1,
                );
            }
        },
        Move::Drop { piece, to } => {
            lemma_board_worth_updated(d.squares, to.ix(), Some(piece), us, 81);
            lemma_hand_worth(d.hand(us), piece.kind, d.hand(us).holds(piece.kind) - 1);
        },
    }
}

proof fn lemma_hand_worth(hand: Hand, kind: PieceKind, n: int)
    requires
        kind.droppable(),
        0 <= n <= 255,
    ensures
        hand_worth(hand.with(kind, n)) == hand_worth(hand) + in_hand_value(kind) * (n - hand.holds(
            kind,
        )),
{
}

/// The balance is added up piece by piece: putting a piece on an empty square adds
/// what it is worth on the board to its owner's side of the balance, and changes
/// nothing else of it.
pub proof fn law_a_piece_on_the_board_counts_for_its_owner(d: Diagram, place: int, piece: Piece)
    requires
        d.squares.len() == 81,
        0 <= place < 81,
        d.squares[place] is None,
    ensures
        material(Diagram { squares: d.squares.update(place, Some(piece)), ..d }) == material(d) + (
        if piece.color == d.side {
            on_board_value(piece.kind)
        } else {
            -on_board_value(piece.kind)
        }),
{
    lemma_board_worth_updated(d.squares, place, Some(piece), d.side, 81);
}

/// One piece more in a hand adds what it is worth there to its holder's side of the
/// balance.
#[verifier::rlimit(30)]
pub proof fn law_a_piece_in_hand_counts_for_its_holder(d: Diagram, kind: PieceKind, owner: Color)
    requires
        kind.droppable(),
        d.hand(owner).holds(kind) < 255,
    ensures
        material(
            d.with_hand(owner, d.hand(owner).with(kind, d.hand(owner).holds(kind) + 1)),
        ) == material(d) + (if owner == d.side {
            in_hand_value(kind)
        } else {
            -in_hand_value(kind)
        }),
{
    let hand = d.hand(owner);
    let more = hand.with(kind, hand.holds(kind) + 1);
    lemma_hand_worth(hand, kind, hand.holds(kind) + 1);
    assert(hand_worth(more) == hand_worth(hand) + in_hand_value(kind));
    let after = d.with_hand(owner, more);
    assert(after.squares == d.squares && after.side == d.side);
    assert(after.hand(owner) == more);
    assert(after.hand(owner.other()) == d.hand(owner.other()));
}

/// Nothing on the board and nothing in hand is worth nothing.
pub proof fn law_an_empty_board_is_worth_nothing(d: Diagram)
    requires
        d.squares.len() == 81,
        forall|i: int| 0 <= i < 81 ==> #[trigger] d.squares[i] is None,
        d.black == Hand::nothing(),
        d.white == Hand::nothing(),
    ensures
        material(d) == 0,
{
    lemma_nothing_stands(d.squares, d.side, 81);
}

proof fn lemma_nothing_stands(squares: Seq<Option<Piece>>, side: Color, n: int)
    requires
        n <= squares.len(),
        forall|i: int| 0 <= i < n ==> #[trigger] squares[i] is None,
    ensures
        board_worth(squares, side, n) == 0,
    decreases n,
{
    if n > 0 {
        lemma_nothing_stands(squares, side, n - 1);
    }
}

/// A piece is worth more in hand than on the board, where it can be held at all,
/// and promoting never costs anything; the small pieces promote to what a gold is
/// worth. Pieces are worth the more the later they come in a set, and the king is
/// not counted.
pub proof fn law_promotion_and_the_hand_add_worth(kind: PieceKind)
    ensures
        kind.droppable() ==> 0 < on_board_value(kind) < in_hand_value(kind),
        !kind.droppable() ==> in_hand_value(kind) == 0,
        kind.promoted() matches Some(promoted) ==> on_board_value(promoted) > on_board_value(kind),
        kind == PieceKind::Pawn || kind == PieceKind::Lance || kind == PieceKind::Knight || kind
            == PieceKind::Silver ==> on_board_value(kind.promoted()->0) == on_board_value(
            PieceKind::Gold,
        ),
        on_board_value(PieceKind::King) == 0,
        on_board_value(PieceKind::Pawn) < on_board_value(PieceKind::Lance) < on_board_value(
            PieceKind::Knight,
        ) < on_board_value(PieceKind::Silver) < on_board_value(PieceKind::Gold) < on_board_value(
            PieceKind::Bishop,
        ) < on_board_value(PieceKind::Rook),
{
}

} // verus!
