//! Which of a node's moves is tried before the others.

use vstd::prelude::*;

use crate::board::Board;
use crate::diagram::Diagram;
use crate::search::eval::{
    board_value, capture_gain, on_board_value, taking_is_worth,
};
use crate::search::score::Depth;
use crate::shogi::{Move, PieceKind};

verus! {

/// How promising a capture is: what it wins, and, where that ties, how cheap
/// the piece is that wins it.
pub type Rank = (i32, i32);

/// Whether one rank is above another: what is won decides first.
pub open spec fn above(a: Rank, b: Rank) -> bool {
    a.0 > b.0 || (a.0 == b.0 && a.1 > b.1)
}

pub fn is_above(a: Rank, b: Rank) -> (r: bool)
    ensures
        r == above(a, b),
{
    a.0 > b.0 || (a.0 == b.0 && a.1 > b.1)
}

/// What promoting adds to the mover's material: nothing for a kind that cannot
/// promote.
pub open spec fn promoting_adds(kind: PieceKind) -> int {
    match kind.promoted() {
        Some(promoted) => on_board_value(promoted) - on_board_value(kind),
        None => 0,
    }
}

fn promotion_gain(kind: PieceKind) -> (r: i32)
    ensures
        r == promoting_adds(kind),
        0 <= r <= 500,
{
    match kind.promote() {
        Some(promoted) => board_value(promoted) - board_value(kind),
        None => 0,
    }
}

/// The rank of a capture of `victim` by `attacker`.
pub open spec fn rank_of(victim: PieceKind, attacker: PieceKind, promote: bool) -> Rank {
    (
        (taking_is_worth(victim) + if promote {
            promoting_adds(attacker)
        } else {
            0
        }) as i32,
        (-on_board_value(attacker)) as i32,
    )
}

pub fn key_of(victim: PieceKind, attacker: PieceKind, promote: bool) -> (r: Rank)
    ensures
        r == rank_of(victim, attacker, promote),
        r.0 == taking_is_worth(victim) + (if promote {
            promoting_adds(attacker)
        } else {
            0
        }),
        r.1 == -on_board_value(attacker),
{
    let promotion: i32 = if promote {
        promotion_gain(attacker)
    } else {
        0
    };
    (capture_gain(victim) + promotion, -board_value(attacker))
}

/// The rank of a move that takes something; a move that takes nothing has none.
pub open spec fn capture_rank(d: Diagram, mv: Move) -> Option<Rank> {
    match mv {
        Move::Normal { from, to, promote } => if d.at(to) is Some && d.at(from) is Some {
            Some(rank_of(d.at(to)->0.kind, d.at(from)->0.kind, promote))
        } else {
            None
        },
        Move::Drop { .. } => None,
    }
}

pub fn capture_key(board: &Board, mv: Move) -> (r: Option<Rank>)
    ensures
        r == capture_rank(board@, mv),
{
    let victim = match board.piece_at(mv.to()) {
        Some(piece) => piece.kind,
        None => return None,
    };
    match mv.from() {
        Some(from) => match board.piece_at(from) {
            Some(attacker) => Some(key_of(victim, attacker.kind, mv.is_promoting())),
            None => None,
        },
        None => None,
    }
}

/// No difference in what takes can outweigh one in what is won, and the king
/// takes before any other piece does.
pub proof fn law_the_dearer_gain_ranks_first(
    victim: PieceKind,
    other: PieceKind,
    attacker: PieceKind,
    rival: PieceKind,
)
    ensures
        taking_is_worth(victim) > taking_is_worth(other) ==> above(
            rank_of(victim, attacker, false),
            rank_of(other, rival, false),
        ),
        on_board_value(attacker) < on_board_value(rival) ==> above(
            rank_of(victim, attacker, false),
            rank_of(victim, rival, false),
        ),
        rival != PieceKind::King ==> above(
            rank_of(victim, PieceKind::King, false),
            rank_of(victim, rival, false),
        ),
        attacker.promoted() is Some ==> above(
            rank_of(victim, attacker, true),
            rank_of(victim, attacker, false),
        ),
{
}

/// What no entry of a history table passes.
pub const CEILING: i32 = 16_384;

/// The entries of a history table: one for each side, kind and destination.
pub const HISTORY_ENTRIES: usize = 2_268;

/// The place of a move in a history table: the side, the kind before any
/// promotion, and the destination.
pub open spec fn history_place(d: Diagram, mv: Move) -> Option<int> {
    match mv {
        Move::Normal { from, to, .. } => match d.at(from) {
            Some(piece) => Some((piece.color.ix() * 14 + piece.kind.ix()) * 81 + to.ix()),
            None => None,
        },
        Move::Drop { piece, to } => Some((piece.color.ix() * 14 + piece.kind.ix()) * 81 + to.ix()),
    }
}

/// An entry after one more cutoff at `depth`.
pub open spec fn raised(value: int, depth: int) -> int {
    value + depth * depth - value * (depth * depth) / (CEILING as int)
}

/// What a history table says of a move, 0 for one of which it holds nothing.
pub open spec fn credit(history: Seq<i32>, d: Diagram, mv: Move) -> int {
    match history_place(d, mv) {
        Some(place) => history[place] as int,
        None => 0,
    }
}

/// A history table after `mv` cut one more node off at `depth`.
pub open spec fn recorded(history: Seq<i32>, d: Diagram, mv: Move, depth: int) -> Seq<i32> {
    match history_place(d, mv) {
        Some(place) => history.update(place, raised(history[place] as int, depth) as i32),
        None => history,
    }
}

/// How readily quiet moves have cut a node off.
#[derive(Debug)]
pub struct HistoryTable {
    values: Vec<i32>,
}

impl View for HistoryTable {
    type V = Seq<i32>;

    closed spec fn view(&self) -> Seq<i32> {
        self.values@
    }
}

/// Whether a history table has its size, and no entry passes the ceiling.
pub open spec fn is_history(values: Seq<i32>) -> bool {
    &&& values.len() == HISTORY_ENTRIES
    &&& forall|i: int| 0 <= i < values.len() ==> 0 <= #[trigger] values[i] <= CEILING
}

impl HistoryTable {
    /// An empty table.
    pub fn new() -> (r: HistoryTable)
        ensures
            is_history(r@),
            forall|i: int| 0 <= i < r@.len() ==> #[trigger] r@[i] == 0,
    {
        HistoryTable { values: vec![0i32; HISTORY_ENTRIES] }
    }

    /// Forgets everything.
    pub fn clear(&mut self)
        ensures
            final(self)@.len() == old(self)@.len(),
            forall|i: int| 0 <= i < final(self)@.len() ==> #[trigger] final(self)@[i] == 0,
    {
        let len: usize = self.values.len();
        let mut i: usize = 0;
        while i < len
            invariant
                i <= len,
                len == self.values@.len(),
                len == old(self)@.len(),
                forall|j: int| 0 <= j < i ==> #[trigger] self.values@[j] == 0,
            decreases len - i,
        {
            self.values.set(i, 0);
            i += 1;
        }
    }

    /// How readily `mv` has cut a node off, 0 for a move of which nothing was
    /// recorded.
    pub fn value(&self, board: &Board, mv: Move) -> (r: i32)
        requires
            is_history(self@),
        ensures
            r == credit(self@, board@, mv),
    {
        match HistoryTable::index(board, mv) {
            Some(place) => self.values[place],
            None => 0,
        }
    }

    /// Records that `mv`, which takes nothing, cut a node off at `depth`. The
    /// bonus grows with the depth, and the more an entry holds the less of it
    /// is added.
    pub fn record(&mut self, board: &Board, mv: Move, depth: Depth)
        requires
            is_history(old(self)@),
            0 < depth < 128,
            capture_rank(board@, mv) is None,
        ensures
            is_history(final(self)@),
            final(self)@ == recorded(old(self)@, board@, mv, depth as int),
    {
        assert(0 < depth * depth < 16_384) by (nonlinear_arith)
            requires
                0 < depth < 128,
        ;
        let bonus: i32 = depth * depth;
        match HistoryTable::index(board, mv) {
            Some(place) => {
                let value: i32 = self.values[place];
                proof {
                    law_an_entry_never_passes_the_ceiling(value as int, depth as int);
                }
                assert(0 <= value * bonus <= 268_435_456) by (nonlinear_arith)
                    requires
                        0 <= value <= 16_384,
                        0 < bonus < 16_384,
                ;
                self.values.set(place, value + (bonus - value * bonus / CEILING));
            },
            None => {},
        }
    }

    /// The place of `mv` in the table, or `None` when its origin holds nothing.
    fn index(board: &Board, mv: Move) -> (r: Option<usize>)
        ensures
            match r {
                Some(place) => history_place(board@, mv) == Some(place as int) && place
                    < HISTORY_ENTRIES,
                None => history_place(board@, mv) is None,
            },
    {
        let piece = match mv {
            Move::Normal { from, .. } => match board.piece_at(from) {
                Some(piece) => piece,
                None => return None,
            },
            Move::Drop { piece, .. } => piece,
        };
        let row: usize = piece.color.array_index() * 14 + piece.kind.array_index();
        Some(row * 81 + mv.to().array_index())
    }
}

/// Recording never takes an entry past the ceiling and never lowers it; an
/// entry at the ceiling stays there, and one that holds nothing gains the whole
/// bonus.
pub proof fn law_an_entry_never_passes_the_ceiling(value: int, depth: int)
    requires
        0 <= value <= CEILING,
        0 < depth < 128,
    ensures
        value <= raised(value, depth) <= CEILING,
        raised(CEILING as int, depth) == CEILING,
        raised(0, depth) == depth * depth,
{
    let bonus = depth * depth;
    assert(0 < bonus < 16_384) by (nonlinear_arith)
        requires
            0 < depth < 128,
            bonus == depth * depth,
    ;
    assert(value * bonus / 16_384 <= bonus) by (nonlinear_arith)
        requires
            0 <= value <= 16_384,
            0 < bonus,
    ;
    assert(bonus - value * bonus / 16_384 <= 16_384 - value) by (nonlinear_arith)
        requires
            0 <= value <= 16_384,
            0 < bonus < 16_384,
    {
        // The part of the bonus that is left over is at most what is missing.
        assert((16_384 - value) * bonus <= (16_384 - value) * 16_384);
    }
    assert(16_384 * bonus / 16_384 == bonus) by (nonlinear_arith);
}

/// Each side, kind and destination has an entry of its own.
pub proof fn law_every_place_is_its_own(
    color: int,
    kind: int,
    to: int,
    other_color: int,
    other_kind: int,
    other_to: int,
)
    requires
        0 <= color < 2,
        0 <= kind < 14,
        0 <= to < 81,
        0 <= other_color < 2,
        0 <= other_kind < 14,
        0 <= other_to < 81,
        (color * 14 + kind) * 81 + to == (other_color * 14 + other_kind) * 81 + other_to,
    ensures
        color == other_color && kind == other_kind && to == other_to,
{
}

/// What is won decides between two captures, and where that ties, how cheap the
/// piece is that wins it; a capture is never above itself, and of two one is above
/// the other unless they are alike.
pub proof fn law_ranks_are_ordered(a: Rank, b: Rank, c: Rank)
    ensures
        !above(a, a),
        above(a, b) && above(b, c) ==> above(a, c),
        a.0 > b.0 ==> above(a, b),
        a.0 == b.0 && a.1 > b.1 ==> above(a, b),
        above(a, b) || above(b, a) || a == b,
        !(above(a, b) && above(b, a)),
{
}

/// A cutoff is credited to its own move, by the square of the depth less what the
/// entry has of its ceiling, and to no other.
pub proof fn law_a_cutoff_is_credited_to_its_own_move(
    history: Seq<i32>,
    d: Diagram,
    mv: Move,
    depth: int,
    place: int,
)
    requires
        history_place(d, mv) == Some(place),
        0 <= place < history.len(),
        0 <= history[place] <= 16_384,
        0 < depth < 128,
    ensures
        recorded(history, d, mv, depth).len() == history.len(),
        recorded(history, d, mv, depth)[place] == history[place] + depth * depth - history[place] * (
        depth * depth) / 16_384,
        forall|k: int|
            0 <= k < history.len() && k != place ==> #[trigger] recorded(history, d, mv, depth)[k]
                == history[k],
        credit(recorded(history, d, mv, depth), d, mv) >= credit(history, d, mv),
{
    law_an_entry_never_passes_the_ceiling(history[place] as int, depth);
}

} // verus!
