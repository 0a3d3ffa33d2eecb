//! Entering the opponent's camp with the king, and declaring it: the 27-point
//! rule.

use vstd::prelude::*;

use crate::diagram::{lemma_standing_step, standing, Diagram};
use crate::position::PartialPosition;
use crate::referee::moves::{attacked, in_check};
use crate::shogi::{Color, Hand, Piece, PieceKind, Square};
use crate::text::{digits, push_number};

verus! {

/// How far the opponent's camp reaches, in ranks.
pub const ZONE_RANKS: u8 = 3;

/// How many pieces besides the king have to stand in the camp.
pub const REQUIRED_PIECES: u32 = 10;

/// Why a declaration is refused. Most are.
#[derive(Clone, Copy, Debug, PartialEq, Eq, Structural)]
pub enum DeclarationError {
    /// A declaration is made in place of a move.
    NotToMove,
    /// The king is outside of the opponent's camp, or absent.
    KingOutsideZone,
    /// The king is attacked.
    InCheck,
    /// So many pieces besides the king stand in the camp.
    TooFewPieces { pieces: u32 },
    /// So many points are made by the pieces in the camp and the hand.
    TooFewPoints { points: u32, required: u32 },
}

/// What a refusal reads as.
pub open spec fn declaration_text(error: DeclarationError) -> Seq<char> {
    match error {
        DeclarationError::NotToMove => "手番ではありません"@,
        DeclarationError::KingOutsideZone => "玉が敵陣に入っていません"@,
        DeclarationError::InCheck => "王手が掛かっています"@,
        DeclarationError::TooFewPieces { pieces } => "敵陣の駒が玉を除いて"@ + digits(
            pieces as nat,
        ) + "枚しかありません"@,
        DeclarationError::TooFewPoints { points, required } => "持点が"@ + digits(points as nat)
            + "点で、"@ + digits(required as nat) + "点に足りません"@,
    }
}

impl DeclarationError {
    /// The refusal as a sentence.
    pub fn describe(&self) -> (r: String)
        ensures
            r@ == declaration_text(*self),
    {
        match *self {
            DeclarationError::NotToMove => "手番ではありません".to_owned(),
            DeclarationError::KingOutsideZone => "玉が敵陣に入っていません".to_owned(),
            DeclarationError::InCheck => "王手が掛かっています".to_owned(),
            DeclarationError::TooFewPieces { pieces } => {
                let mut text = "敵陣の駒が玉を除いて".to_owned();
                push_number(&mut text, pieces as u128);
                text.append("枚しかありません");
                text
            },
            DeclarationError::TooFewPoints { points, required } => {
                let mut text = "持点が".to_owned();
                push_number(&mut text, points as u128);
                text.append("点で、");
                push_number(&mut text, required as u128);
                text.append("点に足りません");
                text
            },
        }
    }
}

/// Whether a place lies in the camp that `color` enters.
pub open spec fn in_camp(place: int, color: Color) -> bool {
    match color {
        Color::Black => place % 9 + 1 <= ZONE_RANKS,
        Color::White => 10 - (place % 9 + 1) <= ZONE_RANKS,
    }
}

/// Five points for a rook or a bishop, promoted or not; none for the king; one
/// for any other piece.
pub open spec fn points_of(kind: PieceKind) -> int {
    match kind.base() {
        PieceKind::Rook => 5,
        PieceKind::Bishop => 5,
        PieceKind::King => 0,
        _ => 1,
    }
}

/// Whether a square counts for a declaration of `color`'s: a piece of its own
/// besides the king, in the camp.
pub open spec fn counts(square: Option<Piece>, place: int, color: Color) -> bool {
    square is Some && square->0.color == color && square->0.kind != PieceKind::King && in_camp(
        place,
        color,
    )
}

/// How many of the first `n` squares count.
pub open spec fn pieces_in_camp(squares: Seq<Option<Piece>>, color: Color, n: int) -> nat
    decreases n,
{
    if n <= 0 {
        0
    } else {
        pieces_in_camp(squares, color, n - 1) + if counts(squares[n - 1], n - 1, color) {
            1nat
        } else {
            0nat
        }
    }
}

/// How many points those of the first `n` squares make that count.
pub open spec fn points_in_camp(squares: Seq<Option<Piece>>, color: Color, n: int) -> int
    decreases n,
{
    if n <= 0 {
        0
    } else {
        points_in_camp(squares, color, n - 1) + if counts(squares[n - 1], n - 1, color) {
            points_of(squares[n - 1]->0.kind)
        } else {
            0
        }
    }
}

/// How many points a hand makes.
pub open spec fn points_in_hand(hand: Hand) -> int {
    hand.pawn + hand.lance + hand.knight + hand.silver + hand.gold + hand.bishop * 5 + hand.rook * 5
}

/// How many points `color` makes.
pub open spec fn points_for(d: Diagram, color: Color) -> int {
    points_in_camp(d.squares, color, 81) + points_in_hand(d.hand(color))
}

/// How many points `color` needs.
pub open spec fn points_needed(color: Color) -> int {
    match color {
        Color::Black => 28,
        Color::White => 27,
    }
}

/// Whether `color`'s king stands in the camp.
pub open spec fn king_in_camp(d: Diagram, color: Color) -> bool {
    d.king(color) is Some && in_camp(d.king(color)->0.ix(), color)
}

/// The first condition of the rule that `color` does not meet, if there is one.
pub open spec fn declaration_fault(d: Diagram, color: Color) -> Option<DeclarationError> {
    if d.side != color {
        Some(DeclarationError::NotToMove)
    } else if !king_in_camp(d, color) {
        Some(DeclarationError::KingOutsideZone)
    } else if attacked(d, color) {
        Some(DeclarationError::InCheck)
    } else if pieces_in_camp(d.squares, color, 81) < REQUIRED_PIECES {
        Some(
            DeclarationError::TooFewPieces {
                pieces: pieces_in_camp(d.squares, color, 81) as u32,
            },
        )
    } else if points_for(d, color) < points_needed(color) {
        Some(
            DeclarationError::TooFewPoints {
                points: points_for(d, color) as u32,
                required: points_needed(color) as u32,
            },
        )
    } else {
        None
    }
}

/// Whether a square lies in the camp that `color` enters.
pub fn in_zone(square: Square, color: Color) -> (r: bool)
    ensures
        r == in_camp(square.ix(), color),
{
    square.relative_rank(color) <= ZONE_RANKS
}

/// What a piece is worth in a declaration.
pub fn piece_points(kind: PieceKind) -> (r: u32)
    ensures
        r == points_of(kind),
        r <= 5,
{
    match kind.unpromoted() {
        PieceKind::Rook | PieceKind::Bishop => 5,
        PieceKind::King => 0,
        _ => 1,
    }
}

/// How many points the declaring side needs.
pub fn required_points(color: Color) -> (r: u32)
    ensures
        r == points_needed(color),
{
    match color {
        Color::Black => 28,
        Color::White => 27,
    }
}

/// How many points a hand makes.
pub fn hand_points(hand: &Hand) -> (r: u32)
    ensures
        r == points_in_hand(*hand),
{
    hand.pawn as u32 + hand.lance as u32 + hand.knight as u32 + hand.silver as u32 + hand.gold as u32
        + hand.bishop as u32 * piece_points(PieceKind::Bishop) + hand.rook as u32 * piece_points(
        PieceKind::Rook,
    )
}

/// Whether `color` may declare in this position, or else the first condition of
/// the rule that it does not meet. The clock is not asked.
pub fn can_declare(position: &PartialPosition, color: Color) -> (r: Result<(), DeclarationError>)
    ensures
        match r {
            Ok(()) => declaration_fault(position@.diagram, color) is None,
            Err(error) => declaration_fault(position@.diagram, color) == Some(error),
        },
{
    if position.side_to_move() != color {
        return Err(DeclarationError::NotToMove);
    }
    let entered = match position.king_position(color) {
        Some(square) => in_zone(square, color),
        None => false,
    };
    if !entered {
        return Err(DeclarationError::KingOutsideZone);
    }
    if in_check(position, color) {
        return Err(DeclarationError::InCheck);
    }
    let mut pieces: u32 = 0;
    let mut points: u32 = 0;
    let mut i: usize = 0;
    while i < 81
        invariant
            i <= 81,
            pieces == pieces_in_camp(position@.diagram.squares, color, i as int),
            points == points_in_camp(position@.diagram.squares, color, i as int),
            pieces <= i,
            points <= 5 * i,
        decreases 81 - i,
    {
        let square = Square::at(i);
        if let Some(piece) = position.piece_at(square) {
            if piece.color == color && piece.kind != PieceKind::King && in_zone(square, color) {
                pieces += 1;
                points += piece_points(piece.kind);
            }
        }
        i += 1;
    }
    if pieces < REQUIRED_PIECES {
        return Err(DeclarationError::TooFewPieces { pieces });
    }
    let points: u32 = points + hand_points(&position.hand_of_a_player(color));
    let required: u32 = required_points(color);
    if points < required {
        return Err(DeclarationError::TooFewPoints { points, required });
    }
    Ok(())
}

/// What the pieces on the squares would make, wherever they stand and whoever
/// has them.
spec fn worth(squares: Seq<Option<Piece>>) -> nat {
    standing(squares, PieceKind::Pawn) + standing(squares, PieceKind::Lance) + standing(
        squares,
        PieceKind::Knight,
    ) + standing(squares, PieceKind::Silver) + standing(squares, PieceKind::Gold) + 5 * standing(
        squares,
        PieceKind::Bishop,
    ) + 5 * standing(squares, PieceKind::Rook)
}

proof fn lemma_camps_within_worth(squares: Seq<Option<Piece>>, n: int)
    requires
        0 <= n <= squares.len(),
    ensures
        points_in_camp(squares, Color::Black, n) + points_in_camp(squares, Color::White, n) <= worth(
            squares.take(n),
        ),
    decreases n,
{
    if n > 0 {
        lemma_camps_within_worth(squares, n - 1);
        lemma_standing_step(squares, n - 1, PieceKind::Pawn);
        lemma_standing_step(squares, n - 1, PieceKind::Lance);
        lemma_standing_step(squares, n - 1, PieceKind::Knight);
        lemma_standing_step(squares, n - 1, PieceKind::Silver);
        lemma_standing_step(squares, n - 1, PieceKind::Gold);
        lemma_standing_step(squares, n - 1, PieceKind::Bishop);
        lemma_standing_step(squares, n - 1, PieceKind::Rook);
        if let Some(piece) = squares[n - 1] {
            let base = piece.kind.base();
            assert(piece.kind == PieceKind::King || base == PieceKind::Pawn || base
                == PieceKind::Lance || base == PieceKind::Knight || base == PieceKind::Silver || base
                == PieceKind::Gold || base == PieceKind::Bishop || base == PieceKind::Rook);
        }
    }
}

/// The two sides never have the points for a declaration at once: a shogi set
/// makes 54 in all, and the two bars ask for 55.
pub proof fn law_the_two_bars_are_not_cleared_at_once(d: Diagram)
    requires
        d.squares.len() == 81,
        d.fits_a_set(),
    ensures
        points_for(d, Color::Black) + points_for(d, Color::White) <= 54,
        points_for(d, Color::Black) < points_needed(Color::Black) || points_for(d, Color::White)
            < points_needed(Color::White),
{
    lemma_camps_within_worth(d.squares, 81);
    assert(d.squares.take(81) =~= d.squares);
    assert(d.census(PieceKind::Pawn) <= 18);
    assert(d.census(PieceKind::Lance) <= 4);
    assert(d.census(PieceKind::Knight) <= 4);
    assert(d.census(PieceKind::Silver) <= 4);
    assert(d.census(PieceKind::Gold) <= 4);
    assert(d.census(PieceKind::Bishop) <= 2);
    assert(d.census(PieceKind::Rook) <= 2);
}

/// The camp is the three ranks farthest from one's own side: ranks 1 to 3 for
/// Black and 7 to 9 for White. No square lies in both.
pub proof fn law_the_camp_is_three_ranks_deep(place: int)
    requires
        0 <= place < 81,
    ensures
        in_camp(place, Color::Black) <==> place % 9 <= 2,
        in_camp(place, Color::White) <==> place % 9 >= 6,
{
}

/// The big pieces count five points, promoted or not, the king none, and every
/// other piece one; in the hand as on the board.
pub proof fn law_a_big_piece_counts_five(kind: PieceKind, hand: Hand)
    ensures
        points_of(kind) == 5 <==> kind == PieceKind::Rook || kind == PieceKind::Bishop || kind
            == PieceKind::ProRook || kind == PieceKind::ProBishop,
        points_of(kind) == 0 <==> kind == PieceKind::King,
        points_of(kind) == 0 || points_of(kind) == 1 || points_of(kind) == 5,
        kind.droppable() && hand.holds(kind) < 255 ==> points_in_hand(
            hand.with(kind, hand.holds(kind) + 1),
        ) == points_in_hand(hand) + points_of(kind),
        (forall|k: PieceKind| k.droppable() ==> #[trigger] hand.holds(k) == 0) ==> points_in_hand(
            hand,
        ) == 0,
{
    if forall|k: PieceKind| k.droppable() ==> #[trigger] hand.holds(k) == 0 {
        assert(hand.holds(PieceKind::Pawn) == 0 && hand.holds(PieceKind::Lance) == 0 && hand.holds(
            PieceKind::Knight,
        ) == 0 && hand.holds(PieceKind::Silver) == 0 && hand.holds(PieceKind::Gold) == 0
            && hand.holds(PieceKind::Bishop) == 0 && hand.holds(PieceKind::Rook) == 0);
    }
}

/// A square counts one piece and its points for a side exactly if a piece of that
/// side's own, not the king, stands on it in the camp; otherwise it counts
/// nothing.
pub proof fn law_each_piece_in_the_camp_counts_once(
    squares: Seq<Option<Piece>>,
    color: Color,
    n: int,
)
    requires
        0 <= n < 81,
    ensures
        ({
            let there = squares[n] is Some && squares[n]->0.color == color && squares[n]->0.kind
                != PieceKind::King && (if color == Color::Black {
                n % 9 <= 2
            } else {
                n % 9 >= 6
            });
            &&& pieces_in_camp(squares, color, 0) == 0
            &&& points_in_camp(squares, color, 0) == 0
            &&& there ==> pieces_in_camp(squares, color, n + 1) == pieces_in_camp(squares, color, n)
                + 1 && points_in_camp(squares, color, n + 1) == points_in_camp(squares, color, n)
                + points_of(squares[n]->0.kind)
            &&& !there ==> pieces_in_camp(squares, color, n + 1) == pieces_in_camp(
                squares,
                color,
                n,
            ) && points_in_camp(squares, color, n + 1) == points_in_camp(squares, color, n)
        }),
{
}

/// A declaration is granted if and only if it is the declaring side's turn, its
/// king stands in the camp and is not attacked, ten more of its pieces stand
/// there, and they and the hand make 28 points for Black or 27 for White. A
/// refusal names the first of these that fails, with what there is.
pub proof fn law_a_declaration_takes_all_five_conditions(d: Diagram, color: Color)
    requires
        d.squares.len() == 81,
    ensures
        ({
            let king = if color == Color::Black {
                d.black_king
            } else {
                d.white_king
            };
            let hand = if color == Color::Black {
                d.black
            } else {
                d.white
            };
            let entered = king is Some && (if color == Color::Black {
                king->0.ix() % 9 <= 2
            } else {
                king->0.ix() % 9 >= 6
            });
            let pieces = pieces_in_camp(d.squares, color, 81);
            let points = points_in_camp(d.squares, color, 81) + points_in_hand(hand);
            let needed = if color == Color::Black {
                28int
            } else {
                27
            };
            let fault = declaration_fault(d, color);
            &&& fault is None <==> d.side == color && entered && !attacked(d, color) && pieces >= 10
                && points >= needed
            &&& fault == Some(DeclarationError::NotToMove) <==> d.side != color
            &&& fault == Some(DeclarationError::KingOutsideZone) <==> d.side == color && !entered
            &&& fault == Some(DeclarationError::InCheck) <==> d.side == color && entered
                && attacked(d, color)
            &&& fault matches Some(DeclarationError::TooFewPieces { pieces: told }) ==> told
                == pieces && pieces < 10
            &&& fault matches Some(DeclarationError::TooFewPoints { points: told, required })
                ==> told == points && required == needed && points < needed && pieces >= 10
        }),
{
    lemma_camp_is_bounded(d.squares, color, 81);
}

proof fn lemma_camp_is_bounded(squares: Seq<Option<Piece>>, color: Color, n: int)
    ensures
        0 <= points_in_camp(squares, color, n),
        n >= 0 ==> points_in_camp(squares, color, n) <= 5 * n && pieces_in_camp(squares, color, n)
            <= n,
    decreases n,
{
    if n > 0 {
        lemma_camp_is_bounded(squares, color, n - 1);
    }
}

} // verus!
