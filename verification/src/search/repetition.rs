//! When a repeated position ends the game, and how.

use vstd::prelude::*;

use crate::board::{in_check, zobrist_key, Board};
use crate::diagram::Diagram;
use crate::search::score::Score;
use crate::shogi::{Color, Hand};

verus! {

/// What a position that has occurred leaves behind: its key, the hands that
/// confirm a match of keys, and whether the side to move was in check.
#[derive(Clone, Copy, Debug, PartialEq, Eq, Structural)]
pub struct HistoryEntry {
    pub key: u64,
    pub black: Hand,
    pub white: Hand,
    pub in_check: bool,
}

impl HistoryEntry {
    pub open spec fn entry(d: Diagram) -> HistoryEntry {
        HistoryEntry {
            key: zobrist_key(d),
            black: d.black,
            white: d.white,
            in_check: in_check(d),
        }
    }

    /// The entry for the position that `board` is in.
    pub fn of(board: &Board) -> (r: HistoryEntry)
        ensures
            r == HistoryEntry::entry(board@),
    {
        HistoryEntry {
            key: board.key(),
            black: board.hand(Color::Black),
            white: board.hand(Color::White),
            in_check: board.in_check(),
        }
    }
}

/// How a game that has repeated a position for the fourth time ends, from the
/// point of view of the side to move.
#[derive(Clone, Copy, Debug, PartialEq, Eq, Structural)]
pub enum Repetition {
    /// Neither side checked throughout: a draw.
    Draw,
    /// The side to move gave every check, and loses.
    PerpetualCheckLoss,
    /// The opponent gave every check, and loses.
    PerpetualCheckWin,
}

impl Repetition {
    pub open spec fn value(self) -> int {
        match self {
            Repetition::Draw => 0,
            Repetition::PerpetualCheckLoss => -30_000,
            Repetition::PerpetualCheckWin => 30_000,
        }
    }

    /// The verdict as a score for the side to move.
    pub fn score(self) -> (r: Score)
        ensures
            r.0 == self.value(),
    {
        match self {
            Repetition::Draw => Score(0),
            Repetition::PerpetualCheckLoss => Score(-30_000),
            Repetition::PerpetualCheckWin => Score(30_000),
        }
    }
}

/// Whether the entry at `i` is the last position of the path again.
pub open spec fn recurs(path: Seq<HistoryEntry>, i: int) -> bool {
    let last = path[path.len() - 1];
    path[i].key == last.key && path[i].black == last.black && path[i].white == last.white
}

/// Walking back from `i` two plies at a time, the place where the last position
/// of the path is met for the `n`th time.
pub open spec fn met_again(path: Seq<HistoryEntry>, i: int, n: int) -> Option<int>
    decreases i,
{
    if i < 2 {
        None
    } else if recurs(path, i - 2) {
        if n <= 1 {
            Some(i - 2)
        } else {
            met_again(path, i - 2, n - 1)
        }
    } else {
        met_again(path, i - 2, n)
    }
}

/// Whether, from `from` to the place `to`, every second position is one in
/// check.
pub open spec fn always_checked(path: Seq<HistoryEntry>, from: int, to: int) -> bool {
    forall|k: int|
        from <= k <= to && (k - from) % 2 == 0 ==> (#[trigger] path[k]).in_check
}

/// How the last position of the path ends the game, if it ends it by
/// repetition: it is the fourth occurrence of a position, and the checks
/// between the four decide.
pub open spec fn verdict_on(path: Seq<HistoryEntry>) -> Option<Repetition> {
    let now = path.len() - 1;
    match met_again(path, now, 3) {
        None => None,
        Some(first) => {
            let we_checked = always_checked(path, first + 1, now - 1);
            let they_checked = always_checked(path, first + 2, now);
            if we_checked && !they_checked {
                Some(Repetition::PerpetualCheckLoss)
            } else if they_checked && !we_checked {
                Some(Repetition::PerpetualCheckWin)
            } else {
                Some(Repetition::Draw)
            }
        },
    }
}

/// Whether every second position from `from` to `to` is one in check.
fn checked_throughout(path: &Vec<HistoryEntry>, from: usize, to: usize) -> (r: bool)
    requires
        to < path@.len(),
    ensures
        r == always_checked(path@, from as int, to as int),
{
    if from > to {
        return true;
    }
    let mut i: usize = from;
    loop
        invariant
            from <= i <= to < path@.len(),
            (i - from) % 2 == 0,
            forall|k: int| from <= k < i && (k - from) % 2 == 0 ==> (#[trigger] path@[k]).in_check,
        decreases to - i,
    {
        if !path[i].in_check {
            assert(!path@[i as int].in_check);
            return false;
        }
        if to - i < 2 {
            return true;
        }
        i += 2;
    }
}

/// Whether the last position of `path` ends the game by repetition, and how.
pub fn verdict(path: &Vec<HistoryEntry>) -> (r: Option<Repetition>)
    ensures
        r == verdict_on(path@),
{
    if path.len() == 0 {
        return None;
    }
    let now: usize = path.len() - 1;
    let current = path[now];
    let mut seen: usize = 0;
    let mut i: usize = now;
    while i >= 2
        invariant
            i <= now,
            now == path@.len() - 1,
            current == path@[now as int],
            seen <= 2,
            met_again(path@, now as int, 3) == met_again(path@, i as int, 3 - seen),
        decreases i,
    {
        i -= 2;
        let entry = path[i];
        if entry.key == current.key && entry.black == current.black && entry.white == current.white {
            seen += 1;
            if seen == 3 {
                let we_checked = checked_throughout(path, i + 1, now - 1);
                let they_checked = checked_throughout(path, i + 2, now);
                return match (we_checked, they_checked) {
                    (true, false) => Some(Repetition::PerpetualCheckLoss),
                    (false, true) => Some(Repetition::PerpetualCheckWin),
                    _ => Some(Repetition::Draw),
                };
            }
        }
    }
    None
}

proof fn lemma_met_again(path: Seq<HistoryEntry>, i: int, n: int)
    requires
        i <= path.len() - 1,
        n >= 1,
    ensures
        met_again(path, i, n) matches Some(first) ==> {
            &&& 0 <= first <= i - 2 * n
            &&& recurs(path, first)
            &&& (i - first) % 2 == 0
        },
    decreases i,
{
    if i >= 2 {
        if recurs(path, i - 2) {
            if n > 1 {
                lemma_met_again(path, i - 2, n - 1);
            }
        } else {
            lemma_met_again(path, i - 2, n);
        }
    }
}

/// The fourth occurrence ends the game and no earlier one does: where there is
/// a verdict, three earlier places hold the last position, each an even number
/// of plies back; and a path of fewer than seven positions has none.
pub proof fn law_a_repetition_takes_four(path: Seq<HistoryEntry>)
    ensures
        verdict_on(path) is Some ==> exists|a: int, b: int, c: int|
            0 <= a < b < c < path.len() - 1 && #[trigger] recurs(path, a) && #[trigger] recurs(
                path,
                b,
            ) && #[trigger] recurs(path, c) && (path.len() - 1 - a) % 2 == 0 && (path.len() - 1 - b)
                % 2 == 0 && (path.len() - 1 - c) % 2 == 0,
        path.len() < 7 ==> verdict_on(path) is None,
{
    let now = path.len() - 1;
    if path.len() > 0 {
        lemma_met_again(path, now, 3);
    }
    if let Some(a) = met_again(path, now, 3) {
        lemma_meetings(path, now, 3);
    }
}

/// Walking back over positions that are not the last one again.
proof fn lemma_walk(path: Seq<HistoryEntry>, i: int, to: int, n: int)
    requires
        0 <= to <= i <= path.len() - 1,
        (i - to) % 2 == 0,
        forall|k: int| to <= k < i && (i - k) % 2 == 0 ==> !#[trigger] recurs(path, k),
    ensures
        met_again(path, i, n) == met_again(path, to, n),
    decreases i - to,
{
    if to < i {
        assert(!recurs(path, i - 2));
        lemma_walk(path, i - 2, to, n);
    }
}

/// Whether the entry at `k`, an even number of plies before the last, tells of
/// the same position: the same key, and the same pieces in either hand.
pub open spec fn is_the_same(path: Seq<HistoryEntry>, k: int) -> bool {
    let last = path[path.len() - 1];
    &&& (path.len() - 1 - k) % 2 == 0
    &&& path[k].key == last.key
    &&& path[k].black == last.black
    &&& path[k].white == last.white
}

/// Whether the side to move in the last position was in check at every position
/// of its own after the place `a`.
pub open spec fn checked_ever_since(path: Seq<HistoryEntry>, a: int) -> bool {
    forall|k: int|
        a < k < path.len() && (path.len() - 1 - k) % 2 == 0 ==> (#[trigger] path[k]).in_check
}

/// Whether the other side was in check at every position of its own after the
/// place `a`.
pub open spec fn checking_ever_since(path: Seq<HistoryEntry>, a: int) -> bool {
    forall|k: int|
        a < k < path.len() && (path.len() - 1 - k) % 2 != 0 ==> (#[trigger] path[k]).in_check
}

/// The checks between the four occurrences decide how a repetition ends. With
/// `a`, `b` and `c` the last three places before the end where the position
/// stood, the side to move wins if it alone was in check every time it was its
/// turn after `a`; it loses if its opponent alone was; and otherwise, with one
/// turn out of check on either side or none on both, the game is drawn.
pub proof fn law_the_checks_decide_a_repetition(path: Seq<HistoryEntry>, a: int, b: int, c: int)
    requires
        0 <= a < b < c < path.len() - 1,
        is_the_same(path, a),
        is_the_same(path, b),
        is_the_same(path, c),
        forall|k: int|
            a < k < path.len() - 1 && #[trigger] is_the_same(path, k) ==> k == b || k == c,
    ensures
        verdict_on(path) is Some,
        verdict_on(path) == Some(Repetition::PerpetualCheckWin) <==> checked_ever_since(path, a)
            && !checking_ever_since(path, a),
        verdict_on(path) == Some(Repetition::PerpetualCheckLoss) <==> checking_ever_since(path, a)
            && !checked_ever_since(path, a),
        verdict_on(path) == Some(Repetition::Draw) <==> checked_ever_since(path, a)
            == checking_ever_since(path, a),
{
    let now = path.len() - 1;
    assert forall|k: int| c + 2 <= k < now && (now - k) % 2 == 0 implies !#[trigger] recurs(
        path,
        k,
    ) by {
        assert(!is_the_same(path, k));
    }
    lemma_walk(path, now, c + 2, 3);
    assert forall|k: int| b + 2 <= k < c && (c - k) % 2 == 0 implies !#[trigger] recurs(path, k) by {
        assert(!is_the_same(path, k));
    }
    lemma_walk(path, c, b + 2, 2);
    assert forall|k: int| a + 2 <= k < b && (b - k) % 2 == 0 implies !#[trigger] recurs(path, k) by {
        assert(!is_the_same(path, k));
    }
    lemma_walk(path, b, a + 2, 1);
    assert(recurs(path, c) && recurs(path, b) && recurs(path, a));
    assert(met_again(path, c + 2, 3) == met_again(path, c, 2));
    assert(met_again(path, b + 2, 2) == met_again(path, b, 1));
    assert(met_again(path, a + 2, 1) == Some(a));
    assert(met_again(path, now, 3) == Some(a));
    if checked_ever_since(path, a) {
        assert forall|k: int| a + 2 <= k <= now && (k - (a + 2)) % 2 == 0 implies (
        #[trigger] path[k]).in_check by {}
        assert(always_checked(path, a + 2, now));
    }
    if always_checked(path, a + 2, now) {
        assert forall|k: int| a < k < path.len() && (path.len() - 1 - k) % 2 == 0 implies (
        #[trigger] path[k]).in_check by {
            assert((k - (a + 2)) % 2 == 0 && a + 2 <= k);
        }
    }
    if checking_ever_since(path, a) {
        assert forall|k: int| a + 1 <= k <= now - 1 && (k - (a + 1)) % 2 == 0 implies (
        #[trigger] path[k]).in_check by {}
        assert(always_checked(path, a + 1, now - 1));
    }
    if always_checked(path, a + 1, now - 1) {
        assert forall|k: int| a < k < path.len() && (path.len() - 1 - k) % 2 != 0 implies (
        #[trigger] path[k]).in_check by {
            assert((k - (a + 1)) % 2 == 0 && k <= now - 1);
        }
    }
}

/// Three earlier occurrences, each an even number of plies back, are enough to
/// end the game; with fewer than three it goes on.
pub proof fn law_the_fourth_occurrence_ends_the_game(path: Seq<HistoryEntry>)
    ensures
        verdict_on(path) is Some <==> exists|a: int, b: int, c: int|
            #![trigger is_the_same(path, a), is_the_same(path, b), is_the_same(path, c)]
            0 <= a < b < c < path.len() - 1 && is_the_same(path, a) && is_the_same(path, b)
                && is_the_same(path, c),
{
    let now = path.len() - 1;
    if verdict_on(path) is Some {
        law_a_repetition_takes_four(path);
        let (a, b, c) = choose|a: int, b: int, c: int|
            0 <= a < b < c < path.len() - 1 && #[trigger] recurs(path, a) && #[trigger] recurs(
                path,
                b,
            ) && #[trigger] recurs(path, c) && (path.len() - 1 - a) % 2 == 0 && (path.len() - 1 - b)
                % 2 == 0 && (path.len() - 1 - c) % 2 == 0;
        assert(is_the_same(path, a) && is_the_same(path, b) && is_the_same(path, c));
    }
    assert forall|a: int, b: int, c: int|
        #![trigger is_the_same(path, a), is_the_same(path, b), is_the_same(path, c)]
        0 <= a < b < c < path.len() - 1 && is_the_same(path, a) && is_the_same(path, b)
            && is_the_same(path, c) implies verdict_on(path) is Some by {
        assert(recurs(path, a) && recurs(path, b) && recurs(path, c));
        lemma_met_often_enough(path, now, 3, a, b, c);
    }
}

/// A walk that passes three meetings passes as many as it needs of them.
proof fn lemma_met_often_enough(path: Seq<HistoryEntry>, i: int, n: int, a: int, b: int, c: int)
    requires
        0 <= a < b < c,
        i <= path.len() - 1,
        1 <= n <= 3,
        recurs(path, a) && recurs(path, b) && recurs(path, c),
        (i - a) % 2 == 0 && (i - b) % 2 == 0 && (i - c) % 2 == 0,
        n == 3 ==> c < i,
        n == 2 ==> b < i,
        n == 1 ==> a < i,
    ensures
        met_again(path, i, n) is Some,
    decreases i,
{
    if recurs(path, i - 2) {
        if n > 1 {
            lemma_met_often_enough(path, i - 2, n - 1, a, b, c);
        }
    } else {
        lemma_met_often_enough(path, i - 2, n, a, b, c);
    }
}

/// What is told of a position is its own: its key, what either side holds, and
/// whether the side to move is in check.
pub proof fn law_an_entry_tells_of_its_position(d: Diagram)
    ensures
        HistoryEntry::entry(d).key == zobrist_key(d),
        HistoryEntry::entry(d).black == d.hand(Color::Black),
        HistoryEntry::entry(d).white == d.hand(Color::White),
        HistoryEntry::entry(d).in_check == in_check(d),
{
}

/// A draw is worth nothing to either side; a perpetual check costs the side that
/// gave it what the other side gains, which is more than any material and less
/// than any mate.
pub proof fn law_the_one_who_checked_loses()
    ensures
        Repetition::Draw.value() == 0,
        Repetition::PerpetualCheckLoss.value() == -Repetition::PerpetualCheckWin.value(),
        25_680 < Repetition::PerpetualCheckWin.value() < 31_872,
{
}

/// The three places that a walk of three meetings passes.
proof fn lemma_meetings(path: Seq<HistoryEntry>, i: int, n: int)
    requires
        0 <= i <= path.len() - 1,
        1 <= n <= 3,
        met_again(path, i, n) is Some,
    ensures
        n == 1 ==> exists|c: int| 0 <= c < i && #[trigger] recurs(path, c) && (i - c) % 2 == 0,
        n == 2 ==> exists|b: int, c: int|
            0 <= b < c < i && #[trigger] recurs(path, b) && #[trigger] recurs(path, c) && (i - b) % 2
                == 0 && (i - c) % 2 == 0,
        n == 3 ==> exists|a: int, b: int, c: int|
            0 <= a < b < c < i && #[trigger] recurs(path, a) && #[trigger] recurs(path, b)
                && #[trigger] recurs(path, c) && (i - a) % 2 == 0 && (i - b) % 2 == 0 && (i - c) % 2
                == 0,
    decreases i,
{
    if recurs(path, i - 2) {
        if n > 1 {
            lemma_meetings(path, i - 2, n - 1);
            if n == 2 {
                let b = choose|b: int|
                    0 <= b < i - 2 && #[trigger] recurs(path, b) && (i - 2 - b) % 2 == 0;
                assert(recurs(path, b) && recurs(path, i - 2));
            } else {
                let (a, b) = choose|a: int, b: int|
                    0 <= a < b < i - 2 && #[trigger] recurs(path, a) && #[trigger] recurs(path, b)
                        && (i - 2 - a) % 2 == 0 && (i - 2 - b) % 2 == 0;
                assert(recurs(path, a) && recurs(path, b) && recurs(path, i - 2));
            }
        }
    } else {
        lemma_meetings(path, i - 2, n);
        if n == 1 {
            let c = choose|c: int|
                0 <= c < i - 2 && #[trigger] recurs(path, c) && (i - 2 - c) % 2 == 0;
            assert(recurs(path, c));
        } else if n == 2 {
            let (b, c) = choose|b: int, c: int|
                0 <= b < c < i - 2 && #[trigger] recurs(path, b) && #[trigger] recurs(path, c) && (i
                    - 2 - b) % 2 == 0 && (i - 2 - c) % 2 == 0;
            assert(recurs(path, b) && recurs(path, c));
        } else {
            let (a, b, c) = choose|a: int, b: int, c: int|
                0 <= a < b < c < i - 2 && #[trigger] recurs(path, a) && #[trigger] recurs(path, b)
                    && #[trigger] recurs(path, c) && (i - 2 - a) % 2 == 0 && (i - 2 - b) % 2 == 0
                    && (i - 2 - c) % 2 == 0;
            assert(recurs(path, a) && recurs(path, b) && recurs(path, c));
        }
    }
}

} // verus!
