//! What a search computes, as mathematics: the value of a node, the line that
//! goes with it, and what the search has learnt when it is done.

use vstd::prelude::*;

use crate::board::{in_check, legal_moves, zobrist_key};
use crate::diagram::Diagram;
use crate::search::eval::material;
use crate::search::moves::{
    arranged, captures_first, exchanged, first_at, law_arranging_is_a_permutation,
    law_ordering_is_a_permutation, lemma_exchanged, lemma_first_at, taking, Killers,
};
use crate::search::ordering::{capture_rank, is_history, recorded, HISTORY_ENTRIES};
use crate::search::repetition::{verdict_on, HistoryEntry};
use crate::search::score::{MATE_FLOOR, MAX_PLY};
use crate::search::tt::{Bound, Hit, Memory};
use crate::shogi::Move;

verus! {

/// A search asks whether it is to stop when its node count is a multiple of
/// this.
pub const POLL_INTERVAL_NODES: u64 = 1024;

/// The node count at which a search that has counted `nodes` asks next.
pub open spec fn next_poll(nodes: int) -> int {
    (nodes / POLL_INTERVAL_NODES as int + 1) * POLL_INTERVAL_NODES
}

/// How many plies in check a line of quiescence may spend before it is judged
/// where it stands.
pub const QS_MAX_CHECK_PLIES: i32 = 2;

/// Where a search ends before it is done: at the first poll at or past the node
/// limit, and at the poll where the clock or a signal cut it off, if they did.
pub struct Leash {
    pub limit: Option<u64>,
    pub cut: Option<u64>,
}

impl Leash {
    /// Whether the node limit is used up.
    pub open spec fn spent(self, nodes: u64) -> bool {
        self.limit is Some && nodes >= self.limit->0
    }

    /// Whether the search ends when it has counted this many nodes.
    pub open spec fn ends(self, nodes: u64) -> bool {
        nodes % POLL_INTERVAL_NODES == 0 && (self.spent(nodes) || self.cut == Some(nodes))
    }

    /// The same leash without the node limit.
    pub open spec fn relieved(self) -> Leash {
        Leash { limit: None, ..self }
    }
}

/// What a search carries from node to node: the nodes counted, the deepest ply
/// of the iteration, the transposition table, for each ply the best line from
/// there and the killers, and how readily quiet moves have refuted nodes.
#[verifier::ext_equal]
pub struct Work {
    pub nodes: u64,
    pub seldepth: int,
    pub memory: Memory,
    pub lines: Seq<Seq<Move>>,
    pub killers: Seq<Killers>,
    pub history: Seq<i32>,
}

impl Work {
    pub open spec fn well_formed(self) -> bool {
        &&& self.memory.well_formed()
        &&& self.memory.sound()
        &&& self.lines.len() == MAX_PLY + 1
        &&& self.killers.len() == MAX_PLY + 1
        &&& is_history(self.history)
        &&& 0 <= self.seldepth <= MAX_PLY
    }

    /// One node more.
    pub open spec fn counted(self) -> Work {
        Work {
            nodes: if self.nodes == u64::MAX {
                self.nodes
            } else {
                (self.nodes + 1) as u64
            },
            ..self
        }
    }

    /// No line from `ply` on.
    pub open spec fn cleared(self, ply: int) -> Work {
        Work { lines: self.lines.update(ply, Seq::empty()), ..self }
    }

    /// A node at `ply` was entered.
    pub open spec fn entered(self, ply: int) -> Work {
        let work = self.counted().cleared(ply);
        Work {
            seldepth: if work.seldepth < ply {
                ply
            } else {
                work.seldepth
            },
            ..work
        }
    }

    /// The line from `ply` on is `mv` and what follows it.
    pub open spec fn with_line(self, ply: int, mv: Move) -> Work {
        Work { lines: self.lines.update(ply, seq![mv] + self.lines[ply + 1]), ..self }
    }

    /// A move that took nothing refuted a node at `ply`.
    pub open spec fn with_killer(self, ply: int, d: Diagram, mv: Move) -> Work {
        if capture_rank(d, mv) is Some || self.killers[ply].newest == Some(mv) {
            self
        } else {
            Work {
                killers: self.killers.update(
                    ply,
                    Killers { newest: Some(mv), older: self.killers[ply].newest },
                ),
                ..self
            }
        }
    }

    /// A move that took nothing refuted a node that was searched to `depth`.
    pub open spec fn with_credit(self, d: Diagram, mv: Move, depth: int) -> Work {
        if capture_rank(d, mv) is Some {
            self
        } else {
            Work { history: recorded(self.history, d, mv, depth), ..self }
        }
    }

    /// What a node proved of its position was stored.
    pub open spec fn with_result(
        self,
        d: Diagram,
        ply: int,
        depth: int,
        bound: Bound,
        score: int,
        best: Option<Move>,
    ) -> Work {
        Work {
            memory: self.memory.stored(zobrist_key(d), ply, depth, bound, score, best),
            ..self
        }
    }
}

/// What visiting a node comes to: its score for the side to move, what is known
/// afterwards, and whether the search ended in it.
#[verifier::ext_equal]
pub struct Outcome {
    pub score: int,
    pub work: Work,
    pub stopped: bool,
}

/// What trying a node's moves comes to: the best score, the lower edge of the
/// window, and the move that raised it last.
#[verifier::ext_equal]
pub struct Tried {
    pub best: int,
    pub alpha: int,
    pub best_move: Option<Move>,
    pub work: Work,
    pub stopped: bool,
}

/// Whether what the table knows settles a node that is searched to `depth` in
/// the window from `alpha` to `beta`.
pub open spec fn settles(hit: Option<Hit>, depth: int, alpha: int, beta: int) -> bool {
    hit is Some && hit->0.depth >= depth && match hit->0.bound {
        Bound::Lower => hit->0.score.0 >= beta,
        Bound::Upper => hit->0.score.0 <= alpha,
        Bound::Exact => hit->0.score.0 >= beta || hit->0.score.0 <= alpha,
    }
}

/// What the best score says of a node's value, when the window that it was
/// searched in began at `entry` and was raised to `alpha`.
pub open spec fn bound_of(best: int, entry: int, alpha: int, beta: int) -> Bound {
    if best >= beta {
        Bound::Lower
    } else if alpha > entry {
        Bound::Exact
    } else {
        Bound::Upper
    }
}

/// A node that a move leads to, seen from the side that made the move. The path
/// ends with the node's position, and a position met for the fourth time ends
/// the game there.
pub open spec fn visited(
    leash: Leash,
    d: Diagram,
    path: Seq<HistoryEntry>,
    alpha: int,
    beta: int,
    depth: int,
    ply: int,
    work: Work,
) -> Outcome
    decreases 130 - ply, 3int, 0int,
    when 0 <= ply <= 128
{
    match verdict_on(path) {
        Some(repetition) => Outcome {
            score: -repetition.value(),
            work: work.cleared(ply),
            stopped: false,
        },
        None => {
            let outcome = if depth > 0 && ply < 128 {
                searched(leash, d, path, -beta, -alpha, depth, ply, work)
            } else {
                quiesced(leash, d, -beta, -alpha, 0, ply, work)
            };
            Outcome { score: -outcome.score, ..outcome }
        },
    }
}

/// A node that is searched `depth` plies deep.
pub open spec fn searched(
    leash: Leash,
    d: Diagram,
    path: Seq<HistoryEntry>,
    alpha: int,
    beta: int,
    depth: int,
    ply: int,
    work: Work,
) -> Outcome
    decreases 130 - ply, 2int, 0int,
    when 0 <= ply < 128
{
    let entered = work.entered(ply);
    let hit = entered.memory.found(zobrist_key(d), ply);
    let legal = legal_moves(d);
    if leash.ends(entered.nodes) {
        Outcome { score: 0, work: entered, stopped: true }
    } else if settles(hit, depth, alpha, beta) {
        Outcome { score: hit->0.score.0 as int, work: entered, stopped: false }
    } else if legal.len() == 0 {
        Outcome { score: -32_000 + ply, work: entered, stopped: false }
    } else {
        let known = if hit is Some {
            hit->0.mv
        } else {
            None
        };
        let list = arranged(d, legal, known, entered.killers[ply], entered.history);
        let tried = tried(
            leash,
            d,
            path,
            list,
            0,
            alpha,
            beta,
            -32_001,
            None,
            depth,
            ply,
            entered,
        );
        if tried.stopped {
            Outcome { score: tried.best, work: tried.work, stopped: true }
        } else {
            let bound = bound_of(tried.best, alpha, tried.alpha, beta);
            Outcome {
                score: tried.best,
                work: tried.work.with_result(d, ply, depth, bound, tried.best, tried.best_move),
                stopped: false,
            }
        }
    }
}

/// The moves of a node, tried in their order from the `i`th on: a move that
/// scores better than the best so far takes its place, one that raises the
/// lower edge of the window begins the line from here, and one that reaches the
/// upper edge ends the node.
pub open spec fn tried(
    leash: Leash,
    d: Diagram,
    path: Seq<HistoryEntry>,
    list: Seq<Move>,
    i: int,
    alpha: int,
    beta: int,
    best: int,
    best_move: Option<Move>,
    depth: int,
    ply: int,
    work: Work,
) -> Tried
    decreases 130 - ply, 1int, list.len() - i,
    when 0 <= ply < 128
{
    if i >= list.len() {
        Tried { best, alpha, best_move, work, stopped: false }
    } else {
        let next = d.played(list[i]);
        let child = visited(
            leash,
            next,
            path.push(HistoryEntry::entry(next)),
            alpha,
            beta,
            depth - 1,
            ply + 1,
            work,
        );
        if child.stopped {
            Tried { best, alpha, best_move, work: child.work, stopped: true }
        } else if child.score > best && child.score > alpha {
            let raised = child.work.with_line(ply, list[i]);
            if child.score >= beta {
                Tried {
                    best: child.score,
                    alpha: child.score,
                    best_move: Some(list[i]),
                    work: raised.with_killer(ply, d, list[i]).with_credit(d, list[i], depth),
                    stopped: false,
                }
            } else {
                tried(
                    leash,
                    d,
                    path,
                    list,
                    i + 1,
                    child.score,
                    beta,
                    child.score,
                    Some(list[i]),
                    depth,
                    ply,
                    raised,
                )
            }
        } else {
            tried(
                leash,
                d,
                path,
                list,
                i + 1,
                alpha,
                beta,
                if child.score > best {
                    child.score
                } else {
                    best
                },
                best_move,
                depth,
                ply,
                child.work,
            )
        }
    }
}

/// A node whose exchanges are played out: out of check only captures are tried,
/// and the side to move may decline them all; in check every evasion is.
/// `depth` goes down by one with each ply in check.
pub open spec fn quiesced(
    leash: Leash,
    d: Diagram,
    alpha: int,
    beta: int,
    depth: int,
    ply: int,
    work: Work,
) -> Outcome
    decreases 130 - ply, 2int, 0int,
    when 0 <= ply <= 128
{
    let entered = work.entered(ply);
    let legal = legal_moves(d);
    if leash.ends(entered.nodes) {
        Outcome { score: 0, work: entered, stopped: true }
    } else if ply >= 128 || (in_check(d) && depth <= -QS_MAX_CHECK_PLIES) {
        Outcome { score: material(d), work: entered, stopped: false }
    } else if in_check(d) {
        if legal.len() == 0 {
            Outcome { score: -32_000 + ply, work: entered, stopped: false }
        } else {
            exchanged_out(
                leash,
                d,
                captures_first(d, legal),
                0,
                alpha,
                beta,
                -32_001,
                depth - 1,
                ply,
                entered,
            )
        }
    } else if material(d) >= beta {
        Outcome { score: material(d), work: entered, stopped: false }
    } else {
        exchanged_out(
            leash,
            d,
            captures_first(d, taking(d, legal)),
            0,
            if material(d) > alpha {
                material(d)
            } else {
                alpha
            },
            beta,
            material(d),
            depth,
            ply,
            entered,
        )
    }
}

/// The moves of a node of quiescence, tried in their order from the `i`th on.
pub open spec fn exchanged_out(
    leash: Leash,
    d: Diagram,
    list: Seq<Move>,
    i: int,
    alpha: int,
    beta: int,
    best: int,
    depth: int,
    ply: int,
    work: Work,
) -> Outcome
    decreases 130 - ply, 1int, list.len() - i,
    when 0 <= ply < 128
{
    if i >= list.len() {
        Outcome { score: best, work, stopped: false }
    } else {
        let child = quiesced(leash, d.played(list[i]), -beta, -alpha, depth, ply + 1, work);
        let score = -child.score;
        if child.stopped {
            Outcome { score: best, work: child.work, stopped: true }
        } else if score > best && score > alpha {
            let raised = child.work.with_line(ply, list[i]);
            if score >= beta {
                Outcome { score, work: raised, stopped: false }
            } else {
                exchanged_out(leash, d, list, i + 1, score, beta, score, depth, ply, raised)
            }
        } else {
            exchanged_out(
                leash,
                d,
                list,
                i + 1,
                alpha,
                beta,
                if score > best {
                    score
                } else {
                    best
                },
                depth,
                ply,
                child.work,
            )
        }
    }
}

/// What one iteration comes to: the best score, if a move was tried to its end
/// and raised the window, and what is known afterwards.
#[verifier::ext_equal]
pub struct Iteration {
    pub best: Option<int>,
    pub work: Work,
    pub stopped: bool,
}

/// The moves at the root, tried in their order from the `i`th on, in the open
/// window. The first of them is on a leash of its own.
pub open spec fn rooted(
    first: Leash,
    leash: Leash,
    d: Diagram,
    path: Seq<HistoryEntry>,
    list: Seq<Move>,
    i: int,
    best: Option<int>,
    depth: int,
    work: Work,
) -> Iteration
    decreases list.len() - i,
{
    if i >= list.len() {
        Iteration { best, work, stopped: false }
    } else {
        let next = d.played(list[i]);
        let alpha = if best is Some {
            best->0
        } else {
            -32_001
        };
        let child = visited(
            if i == 0 {
                first
            } else {
                leash
            },
            next,
            path.push(HistoryEntry::entry(next)),
            alpha,
            32_001,
            depth - 1,
            1,
            work,
        );
        if child.stopped {
            Iteration { best, work: child.work, stopped: true }
        } else if child.score > alpha {
            rooted(
                first,
                leash,
                d,
                path,
                list,
                i + 1,
                Some(child.score),
                depth,
                child.work.with_line(0, list[i]),
            )
        } else {
            rooted(first, leash, d, path, list, i + 1, best, depth, child.work)
        }
    }
}

/// The first move at the root, searched in the open window on no leash.
pub open spec fn opened(
    d: Diagram,
    path: Seq<HistoryEntry>,
    mv: Move,
    depth: int,
    work: Work,
) -> Outcome {
    let next = d.played(mv);
    visited(
        Leash { limit: None, cut: None },
        next,
        path.push(HistoryEntry::entry(next)),
        -32_001,
        32_001,
        depth - 1,
        1,
        work,
    )
}

/// What is told of an iteration.
#[verifier::ext_equal]
pub struct Report {
    pub depth: int,
    pub seldepth: int,
    pub score: int,
    pub nodes: u64,
    /// How full the table is, in permille.
    pub hashfull: Option<int>,
    pub line: Seq<Move>,
}

/// Where a search stands between two iterations: the move it would answer, the
/// deepest iteration that was done to its end, the moves at the root in the
/// order in which they are tried next, what is known, and what was told.
#[verifier::ext_equal]
pub struct Session {
    pub best: Move,
    pub completed: int,
    pub roots: Seq<Move>,
    pub work: Work,
    pub reports: Seq<Report>,
}

/// What a search knows when it begins: the table, grown older.
pub open spec fn begun(memory: Memory) -> Work {
    Work {
        nodes: 0,
        seldepth: 0,
        memory: memory.aged(),
        lines: Seq::new((MAX_PLY + 1) as nat, |i: int| Seq::empty()),
        killers: Seq::new((MAX_PLY + 1) as nat, |i: int| Killers { newest: None, older: None }),
        history: Seq::new(HISTORY_ENTRIES as nat, |i: int| 0i32),
    }
}

/// A search that has not tried a move yet.
pub open spec fn unsearched(d: Diagram, memory: Memory) -> Session {
    Session {
        best: legal_moves(d)[0],
        completed: 0,
        roots: legal_moves(d),
        work: begun(memory),
        reports: Seq::empty(),
    }
}

/// How full the table is, in permille.
pub open spec fn fullness(memory: Memory) -> int {
    (memory.fresh(memory.sample()) * 1000) as int / memory.sample()
}

/// One iteration, `depth` plies deep. The first move of the first iteration is
/// not held to the node limit, so that the answer is a move that was searched.
pub open spec fn iterated(
    leash: Leash,
    d: Diagram,
    path: Seq<HistoryEntry>,
    depth: int,
    session: Session,
) -> Iteration {
    rooted(
        if depth == 1 {
            leash.relieved()
        } else {
            leash
        },
        leash,
        d,
        path,
        session.roots,
        0,
        None,
        depth,
        Work { seldepth: 0, ..session.work }.counted(),
    )
}

/// Where a search stands after an iteration that raised the window: its answer
/// is tried first in the next one.
pub open spec fn advanced(depth: int, session: Session, iteration: Iteration) -> Session {
    let line = iteration.work.lines[0];
    Session {
        best: line[0],
        completed: if iteration.stopped {
            session.completed
        } else {
            depth
        },
        roots: match first_at(session.roots, 0, line[0]) {
            Some(place) => exchanged(session.roots, 0, place),
            None => session.roots,
        },
        work: iteration.work,
        reports: session.reports.push(
            Report {
                depth,
                seldepth: iteration.work.seldepth,
                score: iteration.best->0,
                nodes: iteration.work.nodes,
                hashfull: Some(fullness(iteration.work.memory)),
                line,
            },
        ),
    }
}

/// The iterations from `depth` to `deepest`, one after the other. The search is
/// over after one that raised nothing, that found a mate or was stopped, that
/// used the node limit up, or that was the `last` because the clock or a signal
/// ended the search there.
pub open spec fn deepened(
    leash: Leash,
    last: Option<int>,
    d: Diagram,
    path: Seq<HistoryEntry>,
    depth: int,
    deepest: int,
    session: Session,
) -> Session
    decreases deepest - depth + 1,
{
    if depth > deepest {
        session
    } else {
        let iteration = iterated(leash, d, path, depth, session);
        if iteration.best is None {
            Session { work: iteration.work, ..session }
        } else {
            let next = advanced(depth, session, iteration);
            let score = iteration.best->0;
            if score >= MATE_FLOOR || score <= -MATE_FLOOR || iteration.stopped || leash.spent(
                next.work.nodes,
            ) || last == Some(depth) {
                next
            } else {
                deepened(leash, last, d, path, depth + 1, deepest, next)
            }
        }
    }
}

/// Whether each move of a line is legal where it is played.
pub open spec fn legal_line(d: Diagram, line: Seq<Move>) -> bool
    decreases line.len(),
{
    line.len() > 0 ==> legal_moves(d).contains(line[0]) && legal_line(
        d.played(line[0]),
        line.skip(1),
    )
}

/// Whether every move of the list is legal.
pub open spec fn all_legal(d: Diagram, list: Seq<Move>) -> bool {
    forall|i: int| 0 <= i < list.len() ==> legal_moves(d).contains(#[trigger] list[i])
}

/// Whether two searches have the same lines above `ply`.
pub open spec fn same_above(a: Work, b: Work, ply: int) -> bool {
    &&& b.lines.len() == a.lines.len()
    &&& forall|k: int| 0 <= k < ply ==> #[trigger] b.lines[k] == a.lines[k]
}

proof fn lemma_begins_a_line(d: Diagram, work: Work, ply: int, mv: Move)
    requires
        0 <= ply < work.lines.len() - 1,
        legal_moves(d).contains(mv),
        legal_line(d.played(mv), work.lines[ply + 1]),
    ensures
        legal_line(d, work.with_line(ply, mv).lines[ply]),
{
    let line = seq![mv] + work.lines[ply + 1];
    assert(line.skip(1) =~= work.lines[ply + 1]);
}

proof fn lemma_arranged_is_legal(
    d: Diagram,
    known: Option<Move>,
    killers: Killers,
    history: Seq<i32>,
)
    ensures
        all_legal(d, arranged(d, legal_moves(d), known, killers, history)),
{
    law_arranging_is_a_permutation(d, legal_moves(d), known, killers, history);
    lemma_rearranged(d, arranged(d, legal_moves(d), known, killers, history), legal_moves(d));
}

proof fn lemma_rearranged(d: Diagram, list: Seq<Move>, other: Seq<Move>)
    requires
        list.to_multiset() == other.to_multiset(),
        all_legal(d, other),
    ensures
        all_legal(d, list),
{
    broadcast use vstd::seq_lib::group_to_multiset_ensures;

    assert forall|i: int| 0 <= i < list.len() implies legal_moves(d).contains(#[trigger] list[i]) by {
        assert(list.contains(list[i]));
        assert(other.to_multiset().count(list[i]) > 0);
        assert(other.contains(list[i]));
        let k = choose|k: int| 0 <= k < other.len() && other[k] == list[i];
        assert(legal_moves(d).contains(other[k]));
    }
}

proof fn lemma_taking_is_legal(d: Diagram, list: Seq<Move>)
    requires
        all_legal(d, list),
    ensures
        all_legal(d, taking(d, list)),
    decreases list.len(),
{
    if list.len() > 0 {
        let head = list.drop_last();
        assert forall|i: int| 0 <= i < head.len() implies legal_moves(d).contains(
            #[trigger] head[i],
        ) by {
            assert(head[i] == list[i]);
        }
        lemma_taking_is_legal(d, head);
        assert(legal_moves(d).contains(list[list.len() - 1]));
        assert forall|i: int| 0 <= i < taking(d, list).len() implies legal_moves(d).contains(
            #[trigger] taking(d, list)[i],
        ) by {
            if i < taking(d, head).len() {
                assert(taking(d, list)[i] == taking(d, head)[i]);
            }
        }
    }
}

/// The lines above a node that is visited stay, and the one from it on is legal.
pub proof fn lemma_visited_line(
    leash: Leash,
    d: Diagram,
    path: Seq<HistoryEntry>,
    alpha: int,
    beta: int,
    depth: int,
    ply: int,
    work: Work,
)
    requires
        0 <= ply <= 128,
        work.lines.len() == 129,
    ensures
        same_above(work, visited(leash, d, path, alpha, beta, depth, ply, work).work, ply),
        legal_line(d, visited(leash, d, path, alpha, beta, depth, ply, work).work.lines[ply]),
    decreases 130 - ply, 3int, 0int,
{
    if verdict_on(path) is None {
        if depth > 0 && ply < 128 {
            lemma_searched_line(leash, d, path, -beta, -alpha, depth, ply, work);
        } else {
            lemma_quiesced_line(leash, d, -beta, -alpha, 0, ply, work);
        }
    }
}

proof fn lemma_searched_line(
    leash: Leash,
    d: Diagram,
    path: Seq<HistoryEntry>,
    alpha: int,
    beta: int,
    depth: int,
    ply: int,
    work: Work,
)
    requires
        0 <= ply < 128,
        work.lines.len() == 129,
    ensures
        same_above(work, searched(leash, d, path, alpha, beta, depth, ply, work).work, ply),
        legal_line(d, searched(leash, d, path, alpha, beta, depth, ply, work).work.lines[ply]),
    decreases 130 - ply, 2int, 0int,
{
    let entered = work.entered(ply);
    let hit = entered.memory.found(zobrist_key(d), ply);
    let known = if hit is Some {
        hit->0.mv
    } else {
        None
    };
    let list = arranged(d, legal_moves(d), known, entered.killers[ply], entered.history);
    lemma_arranged_is_legal(d, known, entered.killers[ply], entered.history);
    lemma_tried_line(
        leash,
        d,
        path,
        list,
        0,
        alpha,
        beta,
        -32_001,
        None,
        depth,
        ply,
        entered,
    );
}

proof fn lemma_tried_line(
    leash: Leash,
    d: Diagram,
    path: Seq<HistoryEntry>,
    list: Seq<Move>,
    i: int,
    alpha: int,
    beta: int,
    best: int,
    best_move: Option<Move>,
    depth: int,
    ply: int,
    work: Work,
)
    requires
        0 <= ply < 128,
        0 <= i,
        work.lines.len() == 129,
        all_legal(d, list),
        legal_line(d, work.lines[ply]),
    ensures
        same_above(
            work,
            tried(leash, d, path, list, i, alpha, beta, best, best_move, depth, ply, work).work,
            ply,
        ),
        legal_line(
            d,
            tried(
                leash,
                d,
                path,
                list,
                i,
                alpha,
                beta,
                best,
                best_move,
                depth,
                ply,
                work,
            ).work.lines[ply],
        ),
    decreases 130 - ply, 1int, list.len() - i,
{
    if i < list.len() {
        let next = d.played(list[i]);
        let longer = path.push(HistoryEntry::entry(next));
        lemma_visited_line(leash, next, longer, alpha, beta, depth - 1, ply + 1, work);
        let child = visited(leash, next, longer, alpha, beta, depth - 1, ply + 1, work);
        assert(child.work.lines[ply] == work.lines[ply]);
        if !child.stopped {
            if child.score > best && child.score > alpha {
                lemma_begins_a_line(d, child.work, ply, list[i]);
                if child.score < beta {
                    lemma_tried_line(
                        leash,
                        d,
                        path,
                        list,
                        i + 1,
                        child.score,
                        beta,
                        child.score,
                        Some(list[i]),
                        depth,
                        ply,
                        child.work.with_line(ply, list[i]),
                    );
                }
            } else {
                lemma_tried_line(
                    leash,
                    d,
                    path,
                    list,
                    i + 1,
                    alpha,
                    beta,
                    if child.score > best {
                        child.score
                    } else {
                        best
                    },
                    best_move,
                    depth,
                    ply,
                    child.work,
                );
            }
        }
    }
}

proof fn lemma_quiesced_line(
    leash: Leash,
    d: Diagram,
    alpha: int,
    beta: int,
    depth: int,
    ply: int,
    work: Work,
)
    requires
        0 <= ply <= 128,
        work.lines.len() == 129,
    ensures
        same_above(work, quiesced(leash, d, alpha, beta, depth, ply, work).work, ply),
        legal_line(d, quiesced(leash, d, alpha, beta, depth, ply, work).work.lines[ply]),
    decreases 130 - ply, 2int, 0int,
{
    let entered = work.entered(ply);
    let legal = legal_moves(d);
    if ply < 128 {
        law_ordering_is_a_permutation(d, legal);
        lemma_rearranged(d, captures_first(d, legal), legal);
        lemma_taking_is_legal(d, legal);
        law_ordering_is_a_permutation(d, taking(d, legal));
        lemma_rearranged(d, captures_first(d, taking(d, legal)), taking(d, legal));
        if in_check(d) {
            lemma_exchanged_out_line(
                leash,
                d,
                captures_first(d, legal),
                0,
                alpha,
                beta,
                -32_001,
                depth - 1,
                ply,
                entered,
            );
        } else {
            lemma_exchanged_out_line(
                leash,
                d,
                captures_first(d, taking(d, legal)),
                0,
                if material(d) > alpha {
                    material(d)
                } else {
                    alpha
                },
                beta,
                material(d),
                depth,
                ply,
                entered,
            );
        }
    }
}

proof fn lemma_exchanged_out_line(
    leash: Leash,
    d: Diagram,
    list: Seq<Move>,
    i: int,
    alpha: int,
    beta: int,
    best: int,
    depth: int,
    ply: int,
    work: Work,
)
    requires
        0 <= ply < 128,
        0 <= i,
        work.lines.len() == 129,
        all_legal(d, list),
        legal_line(d, work.lines[ply]),
    ensures
        same_above(
            work,
            exchanged_out(leash, d, list, i, alpha, beta, best, depth, ply, work).work,
            ply,
        ),
        legal_line(
            d,
            exchanged_out(leash, d, list, i, alpha, beta, best, depth, ply, work).work.lines[ply],
        ),
    decreases 130 - ply, 1int, list.len() - i,
{
    if i < list.len() {
        let next = d.played(list[i]);
        lemma_quiesced_line(leash, next, -beta, -alpha, depth, ply + 1, work);
        let child = quiesced(leash, next, -beta, -alpha, depth, ply + 1, work);
        let score = -child.score;
        assert(child.work.lines[ply] == work.lines[ply]);
        if !child.stopped {
            if score > best && score > alpha {
                lemma_begins_a_line(d, child.work, ply, list[i]);
                if score < beta {
                    lemma_exchanged_out_line(
                        leash,
                        d,
                        list,
                        i + 1,
                        score,
                        beta,
                        score,
                        depth,
                        ply,
                        child.work.with_line(ply, list[i]),
                    );
                }
            } else {
                lemma_exchanged_out_line(
                    leash,
                    d,
                    list,
                    i + 1,
                    alpha,
                    beta,
                    if score > best {
                        score
                    } else {
                        best
                    },
                    depth,
                    ply,
                    child.work,
                );
            }
        }
    }
}

proof fn lemma_rooted_line(
    first: Leash,
    leash: Leash,
    d: Diagram,
    path: Seq<HistoryEntry>,
    list: Seq<Move>,
    i: int,
    best: Option<int>,
    depth: int,
    work: Work,
)
    requires
        0 <= i,
        work.lines.len() == 129,
        all_legal(d, list),
        legal_line(d, work.lines[0]),
        best is Some ==> work.lines[0].len() > 0,
    ensures
        rooted(first, leash, d, path, list, i, best, depth, work).work.lines.len() == 129,
        legal_line(d, rooted(first, leash, d, path, list, i, best, depth, work).work.lines[0]),
        rooted(first, leash, d, path, list, i, best, depth, work).best is Some ==> rooted(
            first,
            leash,
            d,
            path,
            list,
            i,
            best,
            depth,
            work,
        ).work.lines[0].len() > 0,
    decreases list.len() - i,
{
    if i < list.len() {
        let next = d.played(list[i]);
        let longer = path.push(HistoryEntry::entry(next));
        let alpha = if best is Some {
            best->0
        } else {
            -32_001
        };
        let used = if i == 0 {
            first
        } else {
            leash
        };
        lemma_visited_line(used, next, longer, alpha, 32_001, depth - 1, 1, work);
        let child = visited(used, next, longer, alpha, 32_001, depth - 1, 1, work);
        assert(child.work.lines[0] == work.lines[0]);
        if !child.stopped {
            if child.score > alpha {
                lemma_begins_a_line(d, child.work, 0, list[i]);
                lemma_rooted_line(
                    first,
                    leash,
                    d,
                    path,
                    list,
                    i + 1,
                    Some(child.score),
                    depth,
                    child.work.with_line(0, list[i]),
                );
            } else {
                lemma_rooted_line(first, leash, d, path, list, i + 1, best, depth, child.work);
            }
        }
    }
}

/// Whether a session holds legal moves at the root, and tells of legal lines
/// whose first move is one of them.
pub open spec fn in_order(d: Diagram, session: Session) -> bool {
    &&& session.work.lines.len() == 129
    &&& all_legal(d, session.roots)
    &&& legal_line(d, session.work.lines[0])
    &&& legal_moves(d).contains(session.best)
    &&& forall|i: int|
        0 <= i < session.reports.len() ==> (#[trigger] session.reports[i]).line.len() > 0
            && legal_line(d, session.reports[i].line)
    &&& session.reports.len() > 0 ==> session.best == session.reports.last().line[0]
}

proof fn lemma_deepened_in_order(
    leash: Leash,
    last: Option<int>,
    d: Diagram,
    path: Seq<HistoryEntry>,
    depth: int,
    deepest: int,
    session: Session,
)
    requires
        in_order(d, session),
    ensures
        in_order(d, deepened(leash, last, d, path, depth, deepest, session)),
    decreases deepest - depth + 1,
{
    if depth <= deepest {
        let iteration = iterated(leash, d, path, depth, session);
        lemma_rooted_line(
            if depth == 1 {
                leash.relieved()
            } else {
                leash
            },
            leash,
            d,
            path,
            session.roots,
            0,
            None,
            depth,
            Work { seldepth: 0, ..session.work }.counted(),
        );
        if iteration.best is Some {
            let next = advanced(depth, session, iteration);
            let mv = iteration.work.lines[0][0];
            lemma_first_at(session.roots, 0, mv);
            if let Some(place) = first_at(session.roots, 0, mv) {
                lemma_exchanged(session.roots, 0, place);
                lemma_rearranged(d, next.roots, session.roots);
            }
            assert(in_order(d, next));
            lemma_deepened_in_order(leash, last, d, path, depth + 1, deepest, next);
        }
    }
}

/// Every line that a search tells of is legal from the root, move by move, and
/// the answer is the first move of the last of them; wherever the search was
/// ended.
pub proof fn law_every_line_told_is_legal(
    leash: Leash,
    last: Option<int>,
    d: Diagram,
    path: Seq<HistoryEntry>,
    deepest: int,
    memory: Memory,
)
    requires
        legal_moves(d).len() > 0,
    ensures
        in_order(d, deepened(leash, last, d, path, 1, deepest, unsearched(d, memory))),
{
    let start = unsearched(d, memory);
    assert(legal_moves(d).contains(legal_moves(d)[0]));
    assert(in_order(d, start));
    lemma_deepened_in_order(leash, last, d, path, 1, deepest, start);
}

/// The reports of a search are of the depths 1, 2, 3 and so on, one each, and the
/// deepest iteration that was done to its end is the last of them or the one
/// before.
pub proof fn law_depths_follow_one_another(
    leash: Leash,
    last: Option<int>,
    d: Diagram,
    path: Seq<HistoryEntry>,
    deepest: int,
    memory: Memory,
)
    ensures
        ({
            let end = deepened(leash, last, d, path, 1, deepest, unsearched(d, memory));
            &&& forall|i: int|
                0 <= i < end.reports.len() ==> (#[trigger] end.reports[i]).depth == i + 1
            &&& end.reports.len() - 1 <= end.completed <= end.reports.len()
            &&& deepest >= 0 ==> end.reports.len() <= deepest
        }),
{
    lemma_depths(leash, last, d, path, 1, deepest, unsearched(d, memory));
}

proof fn lemma_depths(
    leash: Leash,
    last: Option<int>,
    d: Diagram,
    path: Seq<HistoryEntry>,
    depth: int,
    deepest: int,
    session: Session,
)
    requires
        depth >= 1,
        session.reports.len() == depth - 1,
        session.completed == depth - 1,
        forall|i: int|
            0 <= i < session.reports.len() ==> (#[trigger] session.reports[i]).depth == i + 1,
    ensures
        ({
            let end = deepened(leash, last, d, path, depth, deepest, session);
            &&& forall|i: int|
                0 <= i < end.reports.len() ==> (#[trigger] end.reports[i]).depth == i + 1
            &&& end.reports.len() - 1 <= end.completed <= end.reports.len()
            &&& deepest >= depth - 1 ==> end.reports.len() <= deepest
        }),
    decreases deepest - depth + 1,
{
    if depth <= deepest {
        let iteration = iterated(leash, d, path, depth, session);
        if iteration.best is Some && !iteration.stopped {
            lemma_depths(
                leash,
                last,
                d,
                path,
                depth + 1,
                deepest,
                advanced(depth, session, iteration),
            );
        }
    }
}

/// What the table knows settles a node only past an edge of the window: a score
/// strictly within it does not.
pub proof fn law_a_score_within_the_window_settles_nothing(
    hit: Hit,
    depth: int,
    alpha: int,
    beta: int,
)
    requires
        alpha < hit.score.0 < beta,
    ensures
        !settles(Some(hit), depth, alpha, beta),
{
}

/// The next poll is at the next multiple of 1024.
pub proof fn law_a_search_asks_every_1024_nodes(nodes: int)
    requires
        0 <= nodes,
    ensures
        nodes < next_poll(nodes) <= nodes + 1024,
        next_poll(nodes) % 1024 == 0,
{
}

} // verus!
