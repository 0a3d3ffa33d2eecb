//! The move list of a search, and the order in which a node tries its moves.

use vstd::prelude::*;

use crate::board::{legal_moves, Board};
use crate::diagram::Diagram;
use crate::search::ordering::{
    above, capture_key, capture_rank, credit, is_above, is_history, HistoryTable, Rank,
};
use crate::search::score::MAX_PLY;
use crate::shogi::Move;

verus! {

/// The most legal moves that any position has.
pub const MAX_LEGAL_MOVES: usize = 593;

/// The moves of a list that take something, in their order.
pub open spec fn taking(d: Diagram, list: Seq<Move>) -> Seq<Move>
    decreases list.len(),
{
    if list.len() == 0 {
        list
    } else if capture_rank(d, list.last()) is Some {
        taking(d, list.drop_last()).push(list.last())
    } else {
        taking(d, list.drop_last())
    }
}

/// The moves of a list that take nothing, in their order.
pub open spec fn quiet(d: Diagram, list: Seq<Move>) -> Seq<Move>
    decreases list.len(),
{
    if list.len() == 0 {
        list
    } else if capture_rank(d, list.last()) is None {
        quiet(d, list.drop_last()).push(list.last())
    } else {
        quiet(d, list.drop_last())
    }
}

/// A ranked list with one capture more, behind every one that it does not rank
/// above.
pub open spec fn ranked_with(d: Diagram, list: Seq<Move>, mv: Move) -> Seq<Move>
    decreases list.len(),
{
    if list.len() == 0 || !above(capture_rank(d, mv)->0, capture_rank(d, list.last())->0) {
        list.push(mv)
    } else {
        ranked_with(d, list.drop_last(), mv).push(list.last())
    }
}

/// Captures in the order of their rank, best first, and equals in the order in
/// which they were given.
pub open spec fn ranked(d: Diagram, list: Seq<Move>) -> Seq<Move>
    decreases list.len(),
{
    if list.len() == 0 {
        list
    } else {
        ranked_with(d, ranked(d, list.drop_last()), list.last())
    }
}

/// The captures of a list by rank, and then its other moves in their order.
pub open spec fn captures_first(d: Diagram, list: Seq<Move>) -> Seq<Move> {
    ranked(d, taking(d, list)) + quiet(d, list)
}

/// The first place of a move in a list, at or after `from`.
pub open spec fn first_at(list: Seq<Move>, from: int, mv: Move) -> Option<int>
    decreases list.len() - from,
{
    if from < 0 || from >= list.len() {
        None
    } else if list[from] == mv {
        Some(from)
    } else {
        first_at(list, from + 1, mv)
    }
}

/// A list with a move brought forward to `front`, if the move stands there or
/// behind; the moves that it passes keep their order.
pub open spec fn brought_forward(list: Seq<Move>, front: int, mv: Option<Move>) -> Seq<Move> {
    match mv {
        Some(mv) => match first_at(list, front, mv) {
            Some(place) => list.remove(place).insert(front, mv),
            None => list,
        },
        None => list,
    }
}

/// Where the next move goes, once `mv` was brought forward to `front`.
pub open spec fn next_front(list: Seq<Move>, front: int, mv: Option<Move>) -> int {
    if mv is Some && first_at(list, front, mv->0) is Some {
        front + 1
    } else {
        front
    }
}

/// A list with both killers brought forward to `from`, the newest first.
pub open spec fn killers_first(
    list: Seq<Move>,
    from: int,
    newest: Option<Move>,
    older: Option<Move>,
) -> Seq<Move> {
    brought_forward(
        brought_forward(list, from, newest),
        next_front(list, from, newest),
        older,
    )
}

/// Where the other moves begin, once both killers were brought forward to
/// `from`.
pub open spec fn killers_end(
    list: Seq<Move>,
    from: int,
    newest: Option<Move>,
    older: Option<Move>,
) -> int {
    next_front(
        brought_forward(list, from, newest),
        next_front(list, from, newest),
        older,
    )
}

/// A list in the order of what a history says of its moves, with one move more:
/// behind every one of which the history does not say less.
pub open spec fn credited_with(
    d: Diagram,
    history: Seq<i32>,
    list: Seq<Move>,
    mv: Move,
) -> Seq<Move>
    decreases list.len(),
{
    if list.len() == 0 || credit(history, d, mv) <= credit(history, d, list.last()) {
        list.push(mv)
    } else {
        credited_with(d, history, list.drop_last(), mv).push(list.last())
    }
}

/// Moves in the order of what a history says of them, the most first, and equals
/// in the order in which they were given.
pub open spec fn credited(d: Diagram, history: Seq<i32>, list: Seq<Move>) -> Seq<Move>
    decreases list.len(),
{
    if list.len() == 0 {
        list
    } else {
        credited_with(d, history, credited(d, history, list.drop_last()), list.last())
    }
}

/// A list with two of its moves exchanged.
pub open spec fn exchanged(list: Seq<Move>, a: int, b: int) -> Seq<Move> {
    list.update(a, list[b]).update(b, list[a])
}

/// Whether every move of the list can be carried out.
pub open spec fn all_playable(d: Diagram, list: Seq<Move>) -> bool {
    forall|i: int| 0 <= i < list.len() ==> d.can_play(#[trigger] list[i])
}

/// The two killers of a ply, the newest first.
#[derive(Clone, Copy, Debug, PartialEq, Eq, Structural)]
pub struct Killers {
    pub newest: Option<Move>,
    pub older: Option<Move>,
}

/// One move list, shared by every ply of a search: a ply appends its moves and
/// drops them again when it is done.
#[derive(Debug)]
pub struct MoveBuf {
    moves: Vec<Move>,
}

/// `std::vec::Vec::capacity`: how many elements a vector can hold without more
/// memory, which is never fewer than it holds. How many more it is rests with the
/// allocator, and is left unsaid.
#[verifier::external_body]
fn room_in(moves: &Vec<Move>) -> (r: usize)
    ensures
        r >= moves@.len(),
{
    moves.capacity()
}

impl View for MoveBuf {
    type V = Seq<Move>;

    closed spec fn view(&self) -> Seq<Move> {
        self.moves@
    }
}

impl MoveBuf {
    /// An empty list, with room for a whole search.
    pub fn new() -> (r: MoveBuf)
        ensures
            r@ == Seq::<Move>::empty(),
    {
        MoveBuf { moves: Vec::with_capacity(MAX_LEGAL_MOVES * MAX_PLY) }
    }

    /// Appends every legal move of the position, and returns where they begin.
    pub fn generate(&mut self, board: &Board) -> (base: usize)
        ensures
            base == old(self)@.len(),
            final(self)@ == old(self)@ + legal_moves(board@),
            all_playable(board@, legal_moves(board@)),
    {
        let base: usize = self.moves.len();
        let mut list = board.legal_moves();
        self.moves.append(&mut list);
        base
    }

    /// Appends every legal move that takes something, and returns where they
    /// begin.
    pub fn generate_captures(&mut self, board: &Board) -> (base: usize)
        ensures
            base == old(self)@.len(),
            final(self)@ == old(self)@ + taking(board@, legal_moves(board@)),
            all_playable(board@, legal_moves(board@)),
    {
        let base: usize = self.moves.len();
        let list = board.legal_moves();
        let ghost before = self@;
        let mut i: usize = 0;
        assert(list@.take(0) =~= Seq::empty());
        assert(before + Seq::<Move>::empty() =~= before);
        while i < list.len()
            invariant
                i <= list@.len(),
                self@ == before + taking(board@, list@.take(i as int)),
            decreases list@.len() - i,
        {
            let mv = list[i];
            assert(list@.take(i as int + 1).drop_last() =~= list@.take(i as int));
            if capture_key(board, mv).is_some() {
                self.moves.push(mv);
                assert(self@ =~= before + taking(board@, list@.take(i as int + 1)));
            }
            i += 1;
        }
        assert(list@.take(list@.len() as int) =~= list@);
        base
    }

    pub fn len(&self) -> (r: usize)
        ensures
            r == self@.len(),
    {
        self.moves.len()
    }

    pub fn get(&self, index: usize) -> (r: Move)
        requires
            index < self@.len(),
        ensures
            r == self@[index as int],
    {
        self.moves[index]
    }

    /// Exchanges two moves.
    pub fn swap(&mut self, a: usize, b: usize)
        requires
            a < old(self)@.len(),
            b < old(self)@.len(),
        ensures
            final(self)@ == exchanged(old(self)@, a as int, b as int),
    {
        let first = self.moves[a];
        let second = self.moves[b];
        self.moves.set(a, second);
        self.moves.set(b, first);
    }

    /// The first place of `mv` at or after `from`.
    pub fn position(&self, from: usize, mv: Move) -> (r: Option<usize>)
        requires
            from <= self@.len(),
        ensures
            match r {
                Some(place) => first_at(self@, from as int, mv) == Some(place as int) && from
                    <= place < self@.len() && self@[place as int] == mv,
                None => first_at(self@, from as int, mv) is None,
            },
    {
        let mut i: usize = from;
        while i < self.moves.len()
            invariant
                from <= i <= self@.len(),
                self@ == self.moves@,
                first_at(self@, from as int, mv) == first_at(self@, i as int, mv),
            decreases self@.len() - i,
        {
            if self.moves[i] == mv {
                return Some(i);
            }
            i += 1;
        }
        None
    }

    /// Puts the captures at or after `from` in front of the other moves there,
    /// best first, and returns where the other moves begin. It reorders to the
    /// end of the list.
    pub fn order_captures(&mut self, from: usize, board: &Board) -> (quiets_from: usize)
        requires
            from <= old(self)@.len(),
        ensures
            final(self)@ == old(self)@.take(from as int) + captures_first(
                board@,
                old(self)@.skip(from as int),
            ),
            quiets_from == from + taking(board@, old(self)@.skip(from as int)).len(),
            quiets_from <= final(self)@.len(),
            final(self)@.len() == old(self)@.len(),
    {
        let ghost d = board@;
        let ghost list = self@.skip(from as int);
        let mut captures: Vec<Move> = Vec::new();
        let mut ranks: Vec<Rank> = Vec::new();
        let mut quiets: Vec<Move> = Vec::new();
        let mut i: usize = from;
        assert(list.take(0) =~= Seq::empty());
        while i < self.moves.len()
            invariant
                from <= i <= self@.len(),
                self@ == old(self)@,
                self@ == self.moves@,
                d == board@,
                list == self@.skip(from as int),
                captures@ == ranked(d, taking(d, list.take(i - from))),
                quiets@ == quiet(d, list.take(i - from)),
                captures@.len() == taking(d, list.take(i - from)).len(),
                captures@.len() + quiets@.len() == i - from,
                ranks@.len() == captures@.len(),
                forall|k: int|
                    0 <= k < ranks@.len() ==> capture_rank(d, captures@[k]) == Some(
                        #[trigger] ranks@[k],
                    ),
            decreases self@.len() - i,
        {
            let mv = self.moves[i];
            proof {
                assert(list.take(i - from + 1).drop_last() =~= list.take(i - from));
                assert(list.take(i - from + 1).last() == mv);
            }
            match capture_key(board, mv) {
                Some(rank) => {
                    proof {
                        let seen = taking(d, list.take(i - from));
                        assert(seen.push(mv).drop_last() =~= seen);
                    }
                    insert_by_rank(board, &mut captures, &mut ranks, mv, rank);
                },
                None => {
                    quiets.push(mv);
                },
            }
            i += 1;
        }
        assert(list.take(list.len() as int) =~= list);
        let quiets_from: usize = from + captures.len();
        self.moves.truncate(from);
        assert(self@ =~= old(self)@.take(from as int));
        self.moves.append(&mut captures);
        self.moves.append(&mut quiets);
        assert(self@ =~= old(self)@.take(from as int) + captures_first(d, list));
        quiets_from
    }

    /// Brings each of the killers forward that stands at or after `from`, and
    /// returns where the other moves begin.
    pub fn order_killers(&mut self, from: usize, killers: Killers) -> (others_from: usize)
        requires
            from <= old(self)@.len(),
        ensures
            others_from == killers_end(
                old(self)@,
                from as int,
                killers.newest,
                killers.older,
            ),
            from <= others_from <= final(self)@.len(),
            final(self)@ == killers_first(
                old(self)@,
                from as int,
                killers.newest,
                killers.older,
            ),
            final(self)@.len() == old(self)@.len(),
            forall|i: int| 0 <= i < from ==> #[trigger] final(self)@[i] == old(self)@[i],
    {
        let front: usize = self.bring_forward(from, killers.newest);
        self.bring_forward(front, killers.older)
    }

    /// Puts the moves at or after `from` in the order of what `history` says of
    /// them, the most first; those that it does not tell apart keep their order.
    pub fn order_history(&mut self, from: usize, board: &Board, history: &HistoryTable)
        requires
            from <= old(self)@.len(),
            is_history(history@),
        ensures
            final(self)@ == old(self)@.take(from as int) + credited(
                board@,
                history@,
                old(self)@.skip(from as int),
            ),
    {
        let ghost d = board@;
        let ghost head = self@.take(from as int);
        let ghost list = self@.skip(from as int);
        let len: usize = self.moves.len();
        let mut sorted: Vec<Move> = Vec::with_capacity(len - from);
        let mut credits: Vec<i32> = Vec::with_capacity(len - from);
        let mut i: usize = from;
        assert(list.take(0) =~= Seq::<Move>::empty());
        while i < len
            invariant
                from <= i <= len,
                len == self@.len(),
                self@ == old(self)@,
                d == board@,
                list == self@.skip(from as int),
                is_history(history@),
                sorted@ == credited(d, history@, list.take(i - from)),
                sorted@.len() == i - from,
                credits@.len() == i - from,
                forall|k: int|
                    0 <= k < credits@.len() ==> #[trigger] credits@[k] == credit(
                        history@,
                        d,
                        sorted@[k],
                    ),
            decreases len - i,
        {
            let mv = self.moves[i];
            let value: i32 = history.value(board, mv);
            let count: usize = i - from;
            let mut at: usize = count;
            assert(sorted@.take(count as int) =~= sorted@);
            assert(credited_with(d, history@, sorted@, mv) + sorted@.skip(count as int)
                =~= credited_with(d, history@, sorted@, mv));
            while at > 0 && credits[at - 1] < value
                invariant
                    at <= count,
                    count == sorted@.len(),
                    credits@.len() == count,
                    value == credit(history@, d, mv),
                    forall|k: int|
                        0 <= k < credits@.len() ==> #[trigger] credits@[k] == credit(
                            history@,
                            d,
                            sorted@[k],
                        ),
                    credited_with(d, history@, sorted@, mv) == credited_with(
                        d,
                        history@,
                        sorted@.take(at as int),
                        mv,
                    ) + sorted@.skip(at as int),
                decreases at,
            {
                proof {
                    let shorter = sorted@.take(at as int);
                    assert(shorter.drop_last() =~= sorted@.take(at - 1));
                    assert(shorter.last() == sorted@[at - 1]);
                    assert(credited_with(d, history@, shorter, mv) + sorted@.skip(at as int)
                        =~= credited_with(d, history@, shorter.drop_last(), mv) + sorted@.skip(
                        at - 1,
                    ));
                }
                at -= 1;
            }
            proof {
                let kept = sorted@.take(at as int);
                if at > 0 {
                    assert(kept.last() == sorted@[at - 1]);
                }
                assert(credited_with(d, history@, kept, mv) == kept.push(mv));
                assert(sorted@.insert(at as int, mv) =~= kept.push(mv) + sorted@.skip(at as int));
                let longer = list.take(i - from + 1);
                assert(longer.drop_last() =~= list.take(i - from));
                assert(longer.last() == mv);
            }
            sorted.insert(at, mv);
            credits.insert(at, value);
            i += 1;
        }
        assert(list.take(list.len() as int) =~= list);
        self.moves.truncate(from);
        self.moves.append(&mut sorted);
        assert(self@ =~= head + credited(d, history@, list));
    }

    fn bring_forward(&mut self, front: usize, mv: Option<Move>) -> (next: usize)
        requires
            front <= old(self)@.len(),
        ensures
            final(self)@ == brought_forward(old(self)@, front as int, mv),
            next == next_front(old(self)@, front as int, mv),
            front <= next <= final(self)@.len(),
            final(self)@.len() == old(self)@.len(),
            forall|i: int| 0 <= i < front ==> #[trigger] final(self)@[i] == old(self)@[i],
    {
        match mv {
            Some(mv) => match self.position(front, mv) {
                Some(place) => {
                    assert(self.moves.len() <= usize::MAX);
                    let _ = self.moves.remove(place);
                    self.moves.insert(front, mv);
                    front + 1
                },
                None => front,
            },
            None => front,
        }
    }

    /// Drops everything at or after `base`.
    pub fn truncate(&mut self, base: usize)
        ensures
            final(self)@ == (if base <= old(self)@.len() {
                old(self)@.take(base as int)
            } else {
                old(self)@
            }),
    {
        self.moves.truncate(base);
        assert(base <= old(self)@.len() ==> self@ =~= old(self)@.take(base as int));
    }

    /// How many moves there is room for without more memory: at least as many as
    /// there are. How many more is up to the machine.
    pub fn capacity(&self) -> (r: usize)
        ensures
            r >= self@.len(),
    {
        room_in(&self.moves)
    }

    /// Drops everything.
    pub fn clear(&mut self)
        ensures
            final(self)@ == Seq::<Move>::empty(),
    {
        self.moves.clear();
    }
}

impl Default for MoveBuf {
    fn default() -> (r: MoveBuf)
        ensures
            r@ == Seq::<Move>::empty(),
    {
        MoveBuf::new()
    }
}

/// Adds a capture to captures in the order of their rank.
fn insert_by_rank(
    board: &Board,
    captures: &mut Vec<Move>,
    ranks: &mut Vec<Rank>,
    mv: Move,
    rank: Rank,
)
    requires
        capture_rank(board@, mv) == Some(rank),
        old(ranks)@.len() == old(captures)@.len(),
        forall|k: int|
            0 <= k < old(ranks)@.len() ==> capture_rank(board@, old(captures)@[k]) == Some(
                #[trigger] old(ranks)@[k],
            ),
    ensures
        final(captures)@ == ranked_with(board@, old(captures)@, mv),
        final(captures)@.len() == old(captures)@.len() + 1,
        final(ranks)@.len() == final(captures)@.len(),
        forall|k: int|
            0 <= k < final(ranks)@.len() ==> capture_rank(board@, final(captures)@[k]) == Some(
                #[trigger] final(ranks)@[k],
            ),
{
    let ghost list = captures@;
    let mut place: usize = captures.len();
    assert(list.take(place as int) =~= list);
    assert(list.skip(place as int) =~= Seq::empty());
    assert(ranked_with(board@, list, mv) + Seq::<Move>::empty() =~= ranked_with(board@, list, mv));
    while place > 0 && is_above(rank, ranks[place - 1])
        invariant
            place <= list.len(),
            list == captures@,
            ranks@.len() == list.len(),
            capture_rank(board@, mv) == Some(rank),
            forall|k: int|
                0 <= k < ranks@.len() ==> capture_rank(board@, list[k]) == Some(
                    #[trigger] ranks@[k],
                ),
            ranked_with(board@, list, mv) == ranked_with(board@, list.take(place as int), mv)
                + list.skip(place as int),
        decreases place,
    {
        proof {
            let head = list.take(place as int);
            assert(head.last() == list[place - 1]);
            assert(capture_rank(board@, list[place - 1]) == Some(ranks@[place - 1]));
            assert(head.drop_last() =~= list.take(place - 1));
            assert(ranked_with(board@, list.take(place - 1), mv).push(list[place - 1]) + list.skip(
                place as int,
            ) =~= ranked_with(board@, list.take(place - 1), mv) + list.skip(place - 1));
        }
        place -= 1;
    }
    proof {
        let head = list.take(place as int);
        if place > 0 {
            assert(head.last() == list[place - 1]);
            assert(capture_rank(board@, list[place - 1]) == Some(ranks@[place - 1]));
        }
        assert(ranked_with(board@, head, mv) == head.push(mv));
        assert(head.push(mv) + list.skip(place as int) =~= list.insert(place as int, mv));
    }
    captures.insert(place, mv);
    ranks.insert(place, rank);
}

/// Whether `mv` is legal in the position that `board` is in.
pub fn is_legal(board: &Board, mv: Move) -> (r: bool)
    ensures
        r == legal_moves(board@).contains(mv),
        r ==> board@.can_play(mv),
{
    let list = board.legal_moves();
    let mut i: usize = 0;
    while i < list.len()
        invariant
            i <= list@.len(),
            list@ == legal_moves(board@),
            all_playable(board@, list@),
            forall|k: int| 0 <= k < i ==> #[trigger] list@[k] != mv,
        decreases list@.len() - i,
    {
        if list[i] == mv {
            return true;
        }
        i += 1;
    }
    false
}

proof fn lemma_ranked_with(d: Diagram, list: Seq<Move>, mv: Move)
    ensures
        ranked_with(d, list, mv).len() == list.len() + 1,
        ranked_with(d, list, mv).to_multiset() == list.to_multiset().insert(mv),
    decreases list.len(),
{
    broadcast use vstd::seq_lib::group_to_multiset_ensures;

    if list.len() > 0 && above(capture_rank(d, mv)->0, capture_rank(d, list.last())->0) {
        lemma_ranked_with(d, list.drop_last(), mv);
        assert(list.drop_last().push(list.last()) =~= list);
        assert(ranked_with(d, list, mv).to_multiset() =~= list.to_multiset().insert(mv));
    }
}

proof fn lemma_ranked(d: Diagram, list: Seq<Move>)
    ensures
        ranked(d, list).len() == list.len(),
        ranked(d, list).to_multiset() == list.to_multiset(),
    decreases list.len(),
{
    broadcast use vstd::seq_lib::group_to_multiset_ensures;

    if list.len() > 0 {
        lemma_ranked(d, list.drop_last());
        lemma_ranked_with(d, ranked(d, list.drop_last()), list.last());
        assert(list.drop_last().push(list.last()) =~= list);
    }
}

proof fn lemma_parted(d: Diagram, list: Seq<Move>)
    ensures
        taking(d, list).len() + quiet(d, list).len() == list.len(),
        taking(d, list).to_multiset().add(quiet(d, list).to_multiset()) == list.to_multiset(),
        forall|i: int|
            0 <= i < taking(d, list).len() ==> capture_rank(
                d,
                #[trigger] taking(d, list)[i],
            ) is Some,
        forall|i: int|
            0 <= i < quiet(d, list).len() ==> capture_rank(d, #[trigger] quiet(d, list)[i]) is None,
    decreases list.len(),
{
    broadcast use vstd::seq_lib::group_to_multiset_ensures;

    if list.len() > 0 {
        lemma_parted(d, list.drop_last());
        assert(list.drop_last().push(list.last()) =~= list);
        assert(taking(d, list).to_multiset().add(quiet(d, list).to_multiset())
            =~= list.to_multiset());
    } else {
        assert(taking(d, list).to_multiset().add(quiet(d, list).to_multiset())
            =~= list.to_multiset());
    }
}

/// Two lists of the same moves hold the same moves.
pub proof fn lemma_same_moves(d: Diagram, list: Seq<Move>, other: Seq<Move>)
    requires
        list.to_multiset() == other.to_multiset(),
        all_playable(d, other),
    ensures
        all_playable(d, list),
        list.len() == other.len(),
{
    broadcast use vstd::seq_lib::group_to_multiset_ensures;

    assert forall|i: int| 0 <= i < list.len() implies d.can_play(#[trigger] list[i]) by {
        assert(list.contains(list[i]));
        assert(other.to_multiset().count(list[i]) > 0);
        assert(other.contains(list[i]));
    }
    assert(list.to_multiset().len() == list.len());
    assert(other.to_multiset().len() == other.len());
}

/// Ordering the captures loses no move and adds none.
pub proof fn law_ordering_is_a_permutation(d: Diagram, list: Seq<Move>)
    ensures
        captures_first(d, list).to_multiset() == list.to_multiset(),
        captures_first(d, list).len() == list.len(),
{
    lemma_parted(d, list);
    lemma_ranked(d, taking(d, list));
    vstd::seq_lib::lemma_multiset_commutative(ranked(d, taking(d, list)), quiet(d, list));
}

proof fn lemma_ranked_with_is_sorted(d: Diagram, list: Seq<Move>, mv: Move)
    requires
        best_first(d, list),
    ensures
        best_first(d, ranked_with(d, list, mv)),
        forall|i: int|
            0 <= i < ranked_with(d, list, mv).len() ==> list.contains(
                #[trigger] ranked_with(d, list, mv)[i],
            ) || ranked_with(d, list, mv)[i] == mv,
    decreases list.len(),
{
    let after = ranked_with(d, list, mv);
    if list.len() == 0 || !above(capture_rank(d, mv)->0, capture_rank(d, list.last())->0) {
        assert forall|i: int, j: int| 0 <= i < j < after.len() implies !above(
            capture_rank(d, #[trigger] after[j])->0,
            capture_rank(d, #[trigger] after[i])->0,
        ) by {
            if j == list.len() {
                let last = list.last();
                assert(list[list.len() - 1] == last);
                if i < list.len() - 1 {
                    assert(!above(capture_rank(d, last)->0, capture_rank(d, list[i])->0));
                }
            }
        }
        assert forall|i: int| 0 <= i < after.len() implies list.contains(#[trigger] after[i])
            || after[i] == mv by {
            if i < list.len() {
                assert(after[i] == list[i]);
            }
        }
    } else {
        let head = list.drop_last();
        assert forall|i: int, j: int| 0 <= i < j < head.len() implies !above(
            capture_rank(d, #[trigger] head[j])->0,
            capture_rank(d, #[trigger] head[i])->0,
        ) by {
            assert(head[i] == list[i] && head[j] == list[j]);
        }
        lemma_ranked_with_is_sorted(d, head, mv);
        lemma_ranked_with(d, head, mv);
        let inner = ranked_with(d, head, mv);
        assert(after == inner.push(list.last()));
        assert forall|i: int| 0 <= i < inner.len() implies !above(
            capture_rank(d, list.last())->0,
            capture_rank(d, #[trigger] inner[i])->0,
        ) by {
            if inner[i] != mv {
                assert(head.contains(inner[i]));
                let k = choose|k: int| 0 <= k < head.len() && head[k] == inner[i];
                assert(list[k] == inner[i]);
                assert(list[list.len() - 1] == list.last());
            }
        }
        assert forall|i: int| 0 <= i < after.len() implies list.contains(#[trigger] after[i])
            || after[i] == mv by {
            if i < inner.len() {
                if inner[i] != mv {
                    assert(head.contains(inner[i]));
                    let k = choose|k: int| 0 <= k < head.len() && head[k] == inner[i];
                    assert(list[k] == inner[i]);
                }
            } else {
                assert(list[list.len() - 1] == after[i]);
            }
        }
    }
}

/// Whether no capture of the list ranks above one that stands before it.
pub open spec fn best_first(d: Diagram, list: Seq<Move>) -> bool {
    forall|i: int, j: int|
        0 <= i < j < list.len() ==> !above(
            capture_rank(d, #[trigger] list[j])->0,
            capture_rank(d, #[trigger] list[i])->0,
        )
}

proof fn lemma_ranked_is_sorted(d: Diagram, list: Seq<Move>)
    ensures
        best_first(d, ranked(d, list)),
    decreases list.len(),
{
    if list.len() > 0 {
        lemma_ranked_is_sorted(d, list.drop_last());
        lemma_ranked_with_is_sorted(d, ranked(d, list.drop_last()), list.last());
    }
}

/// Ordering puts every capture ahead of every move that takes nothing, and the
/// captures come best first.
pub proof fn law_captures_come_first_and_best_first(d: Diagram, list: Seq<Move>)
    ensures
        forall|i: int|
            0 <= i < list.len() ==> (capture_rank(d, #[trigger] captures_first(d, list)[i]) is Some
                <==> i < taking(d, list).len()),
        best_first(d, captures_first(d, list).take(taking(d, list).len() as int)),
{
    broadcast use vstd::seq_lib::group_to_multiset_ensures;

    let first = ranked(d, taking(d, list));
    let rest = quiet(d, list);
    lemma_parted(d, list);
    lemma_ranked(d, taking(d, list));
    lemma_ranked_is_sorted(d, taking(d, list));
    assert(captures_first(d, list).take(taking(d, list).len() as int) =~= first);
    assert forall|i: int| 0 <= i < list.len() implies (capture_rank(
        d,
        #[trigger] captures_first(d, list)[i],
    ) is Some <==> i < taking(d, list).len()) by {
        if i < first.len() {
            assert(first.contains(first[i]));
            assert(taking(d, list).to_multiset().count(first[i]) > 0);
            assert(taking(d, list).contains(first[i]));
            let k = choose|k: int| 0 <= k < taking(d, list).len() && taking(d, list)[k] == first[i];
            assert(capture_rank(d, taking(d, list)[k]) is Some);
        } else {
            assert(captures_first(d, list)[i] == rest[i - first.len()]);
        }
    }
}

/// The moves of a list that have a given rank, in their order.
pub open spec fn of_rank(d: Diagram, list: Seq<Move>, rank: Rank) -> Seq<Move>
    decreases list.len(),
{
    if list.len() == 0 {
        list
    } else if capture_rank(d, list.last()) == Some(rank) {
        of_rank(d, list.drop_last(), rank).push(list.last())
    } else {
        of_rank(d, list.drop_last(), rank)
    }
}

proof fn lemma_ranked_with_is_stable(d: Diagram, list: Seq<Move>, mv: Move, rank: Rank)
    requires
        best_first(d, list),
        capture_rank(d, mv) is Some,
        forall|i: int| 0 <= i < list.len() ==> capture_rank(d, #[trigger] list[i]) is Some,
    ensures
        of_rank(d, ranked_with(d, list, mv), rank) == of_rank(d, list.push(mv), rank),
    decreases list.len(),
{
    assert(list.push(mv).drop_last() =~= list);
    if list.len() > 0 && above(capture_rank(d, mv)->0, capture_rank(d, list.last())->0) {
        let head = list.drop_last();
        assert forall|i: int, j: int| 0 <= i < j < head.len() implies !above(
            capture_rank(d, #[trigger] head[j])->0,
            capture_rank(d, #[trigger] head[i])->0,
        ) by {
            assert(head[i] == list[i] && head[j] == list[j]);
        }
        assert forall|i: int| 0 <= i < head.len() implies capture_rank(
            d,
            #[trigger] head[i],
        ) is Some by {
            assert(head[i] == list[i]);
        }
        lemma_ranked_with_is_stable(d, head, mv, rank);
        let inner = ranked_with(d, head, mv);
        let last = list.last();
        assert(inner.push(last).drop_last() =~= inner);
        assert(head.push(mv).drop_last() =~= head);
        assert(list[list.len() - 1] == last);
        assert(of_rank(d, inner.push(last), rank) == if capture_rank(d, last) == Some(rank) {
            of_rank(d, inner, rank).push(last)
        } else {
            of_rank(d, inner, rank)
        });
        assert(of_rank(d, head.push(mv), rank) == if capture_rank(d, mv) == Some(rank) {
            of_rank(d, head, rank).push(mv)
        } else {
            of_rank(d, head, rank)
        });
        assert(of_rank(d, list.push(mv), rank) == if capture_rank(d, mv) == Some(rank) {
            of_rank(d, list, rank).push(mv)
        } else {
            of_rank(d, list, rank)
        });
    }
}

proof fn lemma_all_captures(d: Diagram, list: Seq<Move>)
    requires
        forall|i: int| 0 <= i < list.len() ==> capture_rank(d, #[trigger] list[i]) is Some,
    ensures
        forall|i: int|
            0 <= i < ranked(d, list).len() ==> capture_rank(
                d,
                #[trigger] ranked(d, list)[i],
            ) is Some,
{
    broadcast use vstd::seq_lib::group_to_multiset_ensures;

    lemma_ranked(d, list);
    assert forall|i: int| 0 <= i < ranked(d, list).len() implies capture_rank(
        d,
        #[trigger] ranked(d, list)[i],
    ) is Some by {
        let mv = ranked(d, list)[i];
        assert(ranked(d, list).contains(mv));
        assert(list.to_multiset().count(mv) > 0);
        assert(list.contains(mv));
    }
}

/// Captures that the ordering cannot tell apart keep the order in which they
/// were generated.
pub proof fn law_equal_captures_keep_their_order(d: Diagram, list: Seq<Move>, rank: Rank)
    requires
        forall|i: int| 0 <= i < list.len() ==> capture_rank(d, #[trigger] list[i]) is Some,
    ensures
        of_rank(d, ranked(d, list), rank) == of_rank(d, list, rank),
    decreases list.len(),
{
    if list.len() > 0 {
        let head = list.drop_last();
        assert forall|i: int| 0 <= i < head.len() implies capture_rank(
            d,
            #[trigger] head[i],
        ) is Some by {
            assert(head[i] == list[i]);
        }
        law_equal_captures_keep_their_order(d, head, rank);
        lemma_ranked_is_sorted(d, head);
        lemma_all_captures(d, head);
        lemma_ranked_with_is_stable(d, ranked(d, head), list.last(), rank);
        assert(ranked(d, head).push(list.last()).drop_last() =~= ranked(d, head));
        assert(list[list.len() - 1] == list.last());
    }
}

/// Where the first place of a move is found.
pub proof fn lemma_first_at(list: Seq<Move>, from: int, mv: Move)
    requires
        0 <= from,
    ensures
        first_at(list, from, mv) matches Some(place) ==> from <= place < list.len() && list[place]
            == mv,
        first_at(list, from, mv) is None ==> forall|i: int|
            from <= i < list.len() ==> #[trigger] list[i] != mv,
    decreases list.len() - from,
{
    if from < list.len() && list[from] != mv {
        lemma_first_at(list, from + 1, mv);
    }
}

proof fn lemma_brought_forward(list: Seq<Move>, front: int, mv: Option<Move>)
    requires
        0 <= front <= list.len(),
    ensures
        brought_forward(list, front, mv).to_multiset() == list.to_multiset(),
        brought_forward(list, front, mv).len() == list.len(),
        forall|i: int| 0 <= i < front ==> #[trigger] brought_forward(list, front, mv)[i] == list[i],
        front <= next_front(list, front, mv) <= list.len(),
        next_front(list, front, mv) > front ==> mv is Some && brought_forward(
            list,
            front,
            mv,
        )[front] == mv->0,
{
    broadcast use vstd::seq_lib::group_to_multiset_ensures;

    if let Some(mv) = mv {
        lemma_first_at(list, front, mv);
        if let Some(place) = first_at(list, front, mv) {
            let without = list.remove(place);
            assert(without.insert(front, mv).to_multiset() =~= list.to_multiset());
        }
    }
}

/// Bringing the killers forward loses no move, adds none, and leaves what
/// stands before them alone; a killer that the list does not hold moves
/// nothing.
pub proof fn law_killers_are_brought_forward(
    list: Seq<Move>,
    from: int,
    newest: Option<Move>,
    older: Option<Move>,
)
    requires
        0 <= from <= list.len(),
    ensures
        killers_first(list, from, newest, older).to_multiset() == list.to_multiset(),
        killers_first(list, from, newest, older).len() == list.len(),
        forall|i: int|
            0 <= i < from ==> #[trigger] killers_first(list, from, newest, older)[i] == list[i],
        newest matches Some(mv) ==> list.skip(from).contains(mv) ==> killers_first(
            list,
            from,
            newest,
            older,
        )[from] == mv,
        newest is Some && !list.skip(from).contains(newest->0) && older is Some && !list.skip(
            from,
        ).contains(older->0) ==> killers_first(list, from, newest, older) == list,
{
    lemma_brought_forward(list, from, newest);
    let once = brought_forward(list, from, newest);
    let front = next_front(list, from, newest);
    lemma_brought_forward(once, front, older);
    if let Some(mv) = newest {
        lemma_first_at(list, from, mv);
        if list.skip(from).contains(mv) {
            let k = choose|k: int| 0 <= k < list.skip(from).len() && list.skip(from)[k] == mv;
            assert(list[from + k] == mv);
        }
        if let Some(place) = first_at(list, from, mv) {
            assert(list.skip(from)[place - from] == mv);
        }
    }
    if let Some(mv) = older {
        lemma_first_at(once, front, mv);
        if newest is Some && !list.skip(from).contains(newest->0) {
            if let Some(place) = first_at(list, from, mv) {
                lemma_first_at(list, from, mv);
                assert(list.skip(from)[place - from] == mv);
            }
        }
    }
}

/// Exchanging two moves loses none and adds none.
pub proof fn lemma_exchanged(list: Seq<Move>, a: int, b: int)
    requires
        0 <= a < list.len(),
        0 <= b < list.len(),
    ensures
        exchanged(list, a, b).to_multiset() == list.to_multiset(),
        exchanged(list, a, b).len() == list.len(),
{
    broadcast use vstd::seq_lib::group_to_multiset_ensures;

    let once = list.update(a, list[b]);
    assert(once[b] == list[b]);
    assert(once.update(b, list[a]).to_multiset() =~= list.to_multiset());
}

/// Of the moves that can be carried out, those that take something are those
/// that end on a piece of the opponent's.
pub proof fn law_captures_end_on_the_opponent(d: Diagram, mv: Move)
    requires
        d.can_play(mv),
    ensures
        capture_rank(d, mv) is Some <==> (d.at(mv.target()) is Some && d.at(mv.target())->0.color
            == d.side.other()),
{
}

/// The order in which a node tries its legal moves: the move that is known to
/// have been best, the captures by what they gain, the killers, and the rest by
/// how readily they have refuted other nodes.
pub open spec fn arranged(
    d: Diagram,
    legal: Seq<Move>,
    best: Option<Move>,
    killers: Killers,
    history: Seq<i32>,
) -> Seq<Move> {
    match place_of(legal, best) {
        Some(place) => in_stages(d, exchanged(legal, 0, place), 1, killers, history),
        None => in_stages(d, legal, 0, killers, history),
    }
}

/// Where the move that is known to have been best stands, if it is there.
pub open spec fn place_of(legal: Seq<Move>, best: Option<Move>) -> Option<int> {
    match best {
        Some(mv) => first_at(legal, 0, mv),
        None => None,
    }
}

/// The moves from `from` on in the order of their captures, the killers and the
/// rest, behind those that come before them.
pub open spec fn in_stages(
    d: Diagram,
    list: Seq<Move>,
    from: int,
    killers: Killers,
    history: Seq<i32>,
) -> Seq<Move> {
    let rest = list.skip(from);
    let ordered = list.take(from) + captures_first(d, rest);
    let quiets_from = from + taking(d, rest).len();
    let refuting = killers_first(ordered, quiets_from, killers.newest, killers.older);
    let others_from = killers_end(ordered, quiets_from, killers.newest, killers.older);
    refuting.take(others_from) + credited(d, history, refuting.skip(others_from))
}

proof fn lemma_first_at_shifts(head: Seq<Move>, list: Seq<Move>, from: int, mv: Move)
    requires
        0 <= from <= list.len(),
    ensures
        first_at(head + list, head.len() + from, mv) == (match first_at(list, from, mv) {
            Some(place) => Some(head.len() + place),
            None => None,
        }),
        first_at(list, from, mv) matches Some(place) ==> from <= place < list.len(),
    decreases list.len() - from,
{
    if from < list.len() {
        assert((head + list)[head.len() + from] == list[from]);
        lemma_first_at_shifts(head, list, from + 1, mv);
    }
}

proof fn lemma_brought_forward_shifts(
    head: Seq<Move>,
    list: Seq<Move>,
    front: int,
    mv: Option<Move>,
)
    requires
        0 <= front <= list.len(),
    ensures
        brought_forward(head + list, head.len() + front, mv) == head + brought_forward(
            list,
            front,
            mv,
        ),
        next_front(head + list, head.len() + front, mv) == head.len() + next_front(list, front, mv),
        brought_forward(list, front, mv).len() == list.len(),
        front <= next_front(list, front, mv) <= list.len(),
{
    if let Some(mv) = mv {
        lemma_first_at_shifts(head, list, front, mv);
    }
    assert(brought_forward(head + list, head.len() + front, mv) =~= head + brought_forward(
        list,
        front,
        mv,
    ));
}

proof fn lemma_killers_first_shifts(head: Seq<Move>, list: Seq<Move>, from: int, killers: Killers)
    requires
        0 <= from <= list.len(),
    ensures
        killers_first(head + list, head.len() + from, killers.newest, killers.older) == head
            + killers_first(list, from, killers.newest, killers.older),
        killers_end(head + list, head.len() + from, killers.newest, killers.older) == head.len()
            + killers_end(list, from, killers.newest, killers.older),
        from <= killers_end(list, from, killers.newest, killers.older) <= list.len(),
        killers_first(list, from, killers.newest, killers.older).len() == list.len(),
{
    lemma_brought_forward_shifts(head, list, from, killers.newest);
    lemma_brought_forward_shifts(
        head,
        brought_forward(list, from, killers.newest),
        next_front(list, from, killers.newest),
        killers.older,
    );
}

impl MoveBuf {
    /// Exchanges the move at `base` with the one that is known to have been best,
    /// if that is there, and returns where the others begin.
    fn bring_best(&mut self, base: usize, best: Option<Move>) -> (next: usize)
        requires
            base <= old(self)@.len(),
        ensures
            ({
                let legal = old(self)@.skip(base as int);
                match place_of(legal, best) {
                    Some(place) => next == base + 1 && final(self)@ == old(self)@.take(base as int)
                        + exchanged(legal, 0, place),
                    None => next == base && final(self)@ == old(self)@,
                }
            }),
            base <= next <= final(self)@.len(),
    {
        let ghost head = self@.take(base as int);
        let ghost legal = self@.skip(base as int);
        assert(self@ =~= head + legal);
        if let Some(mv) = best {
            proof {
                lemma_first_at_shifts(head, legal, 0, mv);
            }
            if let Some(index) = self.position(base, mv) {
                assert(self.moves.len() <= usize::MAX);
                self.swap(base, index);
                assert(self@ =~= head + exchanged(legal, 0, index - base));
                return base + 1;
            }
        }
        base
    }

    /// Orders the moves at or after `from`, `base` being where the ply began.
    fn order_in_stages(
        &mut self,
        base: usize,
        from: usize,
        board: &Board,
        killers: Killers,
        history: &HistoryTable,
    )
        requires
            base <= from <= old(self)@.len(),
            is_history(history@),
        ensures
            final(self)@ == old(self)@.take(base as int) + in_stages(
                board@,
                old(self)@.skip(base as int),
                from - base,
                killers,
                history@,
            ),
    {
        let ghost head = self@.take(base as int);
        let ghost list = self@.skip(base as int);
        let ghost rest = list.skip(from - base);
        assert(self@.skip(from as int) =~= rest);
        assert(self@.take(from as int) =~= head + list.take(from - base));
        let quiets_from: usize = self.order_captures(from, board);
        let ghost ordered = list.take(from - base) + captures_first(board@, rest);
        assert(self@ =~= head + ordered);
        proof {
            lemma_killers_first_shifts(head, ordered, quiets_from - base, killers);
        }
        let others_from: usize = self.order_killers(quiets_from, killers);
        let ghost refuting = killers_first(
            ordered,
            quiets_from - base,
            killers.newest,
            killers.older,
        );
        assert(self@ == head + refuting);
        assert(self@.skip(others_from as int) =~= refuting.skip(others_from - base));
        assert(self@.take(others_from as int) =~= head + refuting.take(others_from - base));
        self.order_history(others_from, board, history);
        assert(self@ =~= head + (refuting.take(others_from - base) + credited(
            board@,
            history@,
            refuting.skip(others_from - base),
        )));
    }

    /// Puts the moves at or after `base` in the order in which a node tries
    /// them.
    pub fn arrange(
        &mut self,
        base: usize,
        board: &Board,
        best: Option<Move>,
        killers: Killers,
        history: &HistoryTable,
    )
        requires
            base <= old(self)@.len(),
            is_history(history@),
        ensures
            final(self)@ == old(self)@.take(base as int) + arranged(
                board@,
                old(self)@.skip(base as int),
                best,
                killers,
                history@,
            ),
    {
        let ghost head = self@.take(base as int);
        let ghost legal = self@.skip(base as int);
        let from: usize = self.bring_best(base, best);
        proof {
            assert(self@.take(base as int) =~= head);
            if let Some(place) = place_of(legal, best) {
                assert(self@.skip(base as int) =~= exchanged(legal, 0, place));
            }
        }
        self.order_in_stages(base, from, board, killers, history);
    }
}

proof fn lemma_credited_with(d: Diagram, history: Seq<i32>, list: Seq<Move>, mv: Move)
    requires
        most_first(d, history, list),
    ensures
        credited_with(d, history, list, mv).to_multiset() == list.push(mv).to_multiset(),
        credited_with(d, history, list, mv).len() == list.len() + 1,
        most_first(d, history, credited_with(d, history, list, mv)),
        forall|i: int|
            0 <= i < list.len() + 1 ==> (#[trigger] credited_with(d, history, list, mv)[i]) == mv
                || list.contains(credited_with(d, history, list, mv)[i]),
        forall|value: int|
            of_credit(d, history, credited_with(d, history, list, mv), value) == #[trigger] of_credit(
                d,
                history,
                list.push(mv),
                value,
            ),
    decreases list.len(),
{
    broadcast use vstd::seq_lib::group_to_multiset_ensures;

    if list.len() > 0 && credit(history, d, mv) > credit(history, d, list.last()) {
        let head = list.drop_last();
        let last = list.last();
        assert forall|i: int, j: int| 0 <= i < j < head.len() implies credit(
            history,
            d,
            #[trigger] head[i],
        ) >= credit(history, d, #[trigger] head[j]) by {
            assert(head[i] == list[i] && head[j] == list[j]);
        }
        lemma_credited_with(d, history, head, mv);
        let inner = credited_with(d, history, head, mv);
        assert(list =~= head.push(last));
        assert(inner.push(last).to_multiset() =~= list.push(mv).to_multiset());
        assert forall|i: int| 0 <= i < inner.len() implies (#[trigger] inner[i]) == mv
            || list.contains(inner[i]) by {
            if inner[i] != mv {
                let k = choose|k: int| 0 <= k < head.len() && head[k] == inner[i];
                assert(list[k] == inner[i]);
            }
        }
        assert forall|i: int, j: int| 0 <= i < j < inner.push(last).len() implies credit(
            history,
            d,
            #[trigger] inner.push(last)[i],
        ) >= credit(history, d, #[trigger] inner.push(last)[j]) by {
            if j < inner.len() {
                assert(credit(history, d, inner[i]) >= credit(history, d, inner[j]));
            } else if inner[i] != mv {
                let k = choose|k: int| 0 <= k < head.len() && head[k] == inner[i];
                assert(list[k] == inner[i] && list[list.len() - 1] == last);
            }
        }
        assert(list.contains(last)) by {
            assert(list[list.len() - 1] == last);
        }
        assert forall|value: int|
            of_credit(d, history, inner.push(last), value) == #[trigger] of_credit(
                d,
                history,
                list.push(mv),
                value,
            ) by {
            assert(inner.push(last).drop_last() =~= inner);
            assert(head.push(mv).drop_last() =~= head);
            assert(list.push(mv).drop_last() =~= list);
            assert(of_credit(d, history, inner, value) == of_credit(
                d,
                history,
                head.push(mv),
                value,
            ));
            let before = of_credit(d, history, head, value);
            assert(of_credit(d, history, head.push(mv), value) == if credit(history, d, mv)
                == value {
                before.push(mv)
            } else {
                before
            });
            assert(of_credit(d, history, list, value) == if credit(history, d, last) == value {
                before.push(last)
            } else {
                before
            });
            assert(of_credit(d, history, list.push(mv), value) == if credit(history, d, mv)
                == value {
                of_credit(d, history, list, value).push(mv)
            } else {
                of_credit(d, history, list, value)
            });
        }
    } else {
        let longer = list.push(mv);
        assert forall|i: int, j: int| 0 <= i < j < longer.len() implies credit(
            history,
            d,
            #[trigger] longer[i],
        ) >= credit(history, d, #[trigger] longer[j]) by {
            if i < list.len() - 1 {
                assert(credit(history, d, list[i]) >= credit(history, d, list[list.len() - 1]));
            }
        }
        assert forall|i: int| 0 <= i < list.len() + 1 implies (#[trigger] longer[i]) == mv
            || list.contains(longer[i]) by {
            if i < list.len() {
                assert(list[i] == longer[i]);
            }
        }
    }
}

/// Whether the history never says more of a later move than of an earlier one.
pub open spec fn most_first(d: Diagram, history: Seq<i32>, list: Seq<Move>) -> bool {
    forall|i: int, j: int|
        0 <= i < j < list.len() ==> credit(history, d, #[trigger] list[i]) >= credit(
            history,
            d,
            #[trigger] list[j],
        )
}

/// The moves of a list of which the history says a given value, in their order.
pub open spec fn of_credit(
    d: Diagram,
    history: Seq<i32>,
    list: Seq<Move>,
    value: int,
) -> Seq<Move>
    decreases list.len(),
{
    if list.len() == 0 {
        list
    } else if credit(history, d, list.last()) == value {
        of_credit(d, history, list.drop_last(), value).push(list.last())
    } else {
        of_credit(d, history, list.drop_last(), value)
    }
}

/// Ordering by history loses no move and adds none, puts the moves of which the
/// history says most first, and keeps the order of those that it does not tell
/// apart.
pub proof fn law_history_orders_stably(
    d: Diagram,
    history: Seq<i32>,
    list: Seq<Move>,
)
    ensures
        credited(d, history, list).to_multiset() == list.to_multiset(),
        credited(d, history, list).len() == list.len(),
        most_first(d, history, credited(d, history, list)),
        forall|value: int|
            #[trigger] of_credit(d, history, credited(d, history, list), value) == of_credit(
                d,
                history,
                list,
                value,
            ),
    decreases list.len(),
{
    broadcast use vstd::seq_lib::group_to_multiset_ensures;

    if list.len() > 0 {
        let head = list.drop_last();
        let mv = list.last();
        law_history_orders_stably(d, history, head);
        let inner = credited(d, history, head);
        lemma_credited_with(d, history, inner, mv);
        assert(list =~= head.push(mv));
        assert(inner.push(mv).to_multiset() =~= list.to_multiset());
        assert forall|value: int|
            #[trigger] of_credit(d, history, credited(d, history, list), value) == of_credit(
                d,
                history,
                list,
                value,
            ) by {
            assert(inner.push(mv).drop_last() =~= inner);
            assert(of_credit(d, history, inner.push(mv), value) == if credit(history, d, mv) == value {
                of_credit(d, history, inner, value).push(mv)
            } else {
                of_credit(d, history, inner, value)
            });
            assert(of_credit(d, history, inner, value) == of_credit(d, history, head, value));
        }
    }
}

/// Arranging the legal moves loses none and adds none, and a move that is known
/// to have been best and is legal comes first.
pub proof fn law_arranging_is_a_permutation(
    d: Diagram,
    legal: Seq<Move>,
    best: Option<Move>,
    killers: Killers,
    history: Seq<i32>,
)
    ensures
        arranged(d, legal, best, killers, history).to_multiset() == legal.to_multiset(),
        arranged(d, legal, best, killers, history).len() == legal.len(),
        best is Some && legal.contains(best->0) ==> arranged(d, legal, best, killers, history)[0]
            == best->0,
{
    broadcast use vstd::seq_lib::group_to_multiset_ensures;

    let at = place_of(legal, best);
    if let Some(mv) = best {
        lemma_first_at(legal, 0, mv);
        if let Some(place) = at {
            lemma_exchanged(legal, 0, place);
        }
    }
    let (list, from) = match at {
        Some(place) => (exchanged(legal, 0, place), 1int),
        None => (legal, 0int),
    };
    let rest = list.skip(from);
    law_ordering_is_a_permutation(d, rest);
    lemma_parted(d, rest);
    let ordered = list.take(from) + captures_first(d, rest);
    vstd::seq_lib::lemma_multiset_commutative(list.take(from), captures_first(d, rest));
    vstd::seq_lib::lemma_multiset_commutative(list.take(from), rest);
    assert(list =~= list.take(from) + rest);
    let quiets_from = from + taking(d, rest).len();
    law_killers_are_brought_forward(ordered, quiets_from, killers.newest, killers.older);
    lemma_killers_first_shifts(Seq::empty(), ordered, quiets_from, killers);
    let refuting = killers_first(ordered, quiets_from, killers.newest, killers.older);
    let others_from = killers_end(ordered, quiets_from, killers.newest, killers.older);
    let others = refuting.skip(others_from);
    law_history_orders_stably(d, history, others);
    vstd::seq_lib::lemma_multiset_commutative(refuting.take(others_from), others);
    vstd::seq_lib::lemma_multiset_commutative(
        refuting.take(others_from),
        credited(d, history, others),
    );
    assert(refuting =~= refuting.take(others_from) + others);
}

/// A node tries its moves in stages: those that were placed already stay in front,
/// then come the captures as they are ranked, then the killers that are there, and
/// then the other moves, the one that has refuted most first.
pub proof fn law_moves_come_in_stages(
    d: Diagram,
    list: Seq<Move>,
    from: int,
    killers: Killers,
    history: Seq<i32>,
)
    requires
        0 <= from <= list.len(),
    ensures
        ({
            let out = in_stages(d, list, from, killers, history);
            let rest = list.skip(from);
            let quiets_from = from + taking(d, rest).len();
            exists|others_from: int| {
                &&& quiets_from <= others_from <= quiets_from + 2
                &&& others_from <= list.len()
                &&& out.len() == list.len()
                &&& forall|i: int| 0 <= i < from ==> #[trigger] out[i] == list[i]
                &&& forall|i: int|
                    from <= i < quiets_from ==> #[trigger] out[i] == captures_first(d, rest)[i
                        - from]
                &&& forall|i: int|
                    quiets_from <= i < others_from ==> Some(#[trigger] out[i]) == killers.newest
                        || Some(out[i]) == killers.older
                &&& #[trigger] most_first(d, history, out.skip(others_from))
            }
        }),
{
    let rest = list.skip(from);
    law_ordering_is_a_permutation(d, rest);
    lemma_parted(d, rest);
    let ordered = list.take(from) + captures_first(d, rest);
    let quiets_from = from + taking(d, rest).len();
    let (newest, older) = (killers.newest, killers.older);
    lemma_killers_first_shifts(Seq::empty(), ordered, quiets_from, killers);
    let once = brought_forward(ordered, quiets_from, newest);
    let front = next_front(ordered, quiets_from, newest);
    if let Some(mv) = newest {
        lemma_first_at(ordered, quiets_from, mv);
    }
    if let Some(mv) = older {
        lemma_first_at(once, front, mv);
    }
    lemma_brought_forward(ordered, quiets_from, newest);
    lemma_brought_forward(once, front, older);
    let refuting = killers_first(ordered, quiets_from, newest, older);
    let others_from = killers_end(ordered, quiets_from, newest, older);
    let others = refuting.skip(others_from);
    law_history_orders_stably(d, history, others);
    let out = in_stages(d, list, from, killers, history);
    assert(out.skip(others_from) =~= credited(d, history, others));
    assert forall|i: int| from <= i < quiets_from implies #[trigger] out[i] == captures_first(
        d,
        rest,
    )[i - from] by {
        assert(out[i] == refuting[i]);
        assert(refuting[i] == ordered[i]);
    }
    assert forall|i: int| 0 <= i < from implies #[trigger] out[i] == list[i] by {
        assert(out[i] == refuting[i]);
        assert(refuting[i] == ordered[i]);
    }
    assert forall|i: int| quiets_from <= i < others_from implies Some(#[trigger] out[i])
        == killers.newest || Some(out[i]) == killers.older by {
        assert(out[i] == refuting[i]);
        if i < front {
            assert(refuting[i] == once[i]);
        }
    }
}

/// The move that is known to have been best is only brought to the front, if it is
/// there at all; the stages are those of the others.
pub proof fn law_the_known_move_goes_first(
    d: Diagram,
    legal: Seq<Move>,
    best: Option<Move>,
    killers: Killers,
    history: Seq<i32>,
)
    ensures
        best is None || !legal.contains(best->0) ==> arranged(d, legal, best, killers, history)
            == in_stages(d, legal, 0, killers, history),
        best is Some && legal.contains(best->0) ==> exists|place: int|
            0 <= place < legal.len() && #[trigger] legal[place] == best->0 && arranged(
                d,
                legal,
                best,
                killers,
                history,
            ) == in_stages(
                d,
                legal.update(place, legal[0]).update(0, best->0),
                1,
                killers,
                history,
            ),
{
    if let Some(mv) = best {
        lemma_first_at(legal, 0, mv);
        if legal.contains(mv) {
            let k = choose|k: int| 0 <= k < legal.len() && legal[k] == mv;
            assert(legal[k] == mv);
            let place = first_at(legal, 0, mv)->0;
            assert(exchanged(legal, 0, place) =~= legal.update(place, legal[0]).update(0, mv));
            assert(legal[place] == mv);
        }
    }
}

} // verus!
