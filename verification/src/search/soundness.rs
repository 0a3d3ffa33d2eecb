//! What a search promises of its answer, whatever the position: that every move
//! was looked at, that the best of them is answered, and that nothing ends the
//! search but what may.

use vstd::prelude::*;

use crate::board::{in_check, legal_moves, zobrist_key};
use crate::diagram::Diagram;
use crate::search::eval::material;
use crate::search::model::{
    advanced, begun, deepened, exchanged_out, fullness, iterated, lemma_visited_line, quiesced,
    rooted, searched, tried, unsearched, visited, Leash, Outcome, Session, Work,
};
use crate::search::moves::{
    arranged, captures_first, first_at, law_arranging_is_a_permutation,
    law_ordering_is_a_permutation, lemma_exchanged, lemma_first_at, taking,
};
use crate::search::repetition::{verdict_on, HistoryEntry};
use crate::search::tt::{law_a_bound_round_trips, Bound, Memory};
use crate::shogi::Move;

verus! {

/// Whether a search that has come from `before` to `after` has counted no nodes
/// less and has the table that it had, and was stopped only where its leash ends.
pub open spec fn follows(leash: Leash, before: Work, after: Work, stopped: bool) -> bool {
    &&& before.nodes <= after.nodes
    &&& before.seldepth <= after.seldepth
    &&& before.memory.slots.len() > 0 ==> after.memory.slots.len() == before.memory.slots.len()
    &&& after.memory.generation == before.memory.generation
    &&& stopped ==> ends_at(leash, after.nodes)
}

/// Whether a search on a leash ends when it has counted `nodes`: it asks every
/// 1024 nodes, and ends at or past its node limit and where it is cut off.
pub open spec fn ends_at(leash: Leash, nodes: u64) -> bool {
    &&& nodes % 1024 == 0
    &&& {
        ||| leash.limit is Some && nodes >= leash.limit->0
        ||| leash.cut is Some && nodes == leash.cut->0
    }
}

/// Visiting a node counts it, leaves the table one of the same size and
/// generation, and stops the search nowhere but where its leash ends.
pub proof fn law_a_visit_stops_where_the_leash_ends(
    leash: Leash,
    d: Diagram,
    path: Seq<HistoryEntry>,
    alpha: int,
    beta: int,
    depth: int,
    ply: int,
    work: Work,
)
    requires
        0 <= ply <= 128,
    ensures
        ({
            let r = visited(leash, d, path, alpha, beta, depth, ply, work);
            &&& follows(leash, work, r.work, r.stopped)
            &&& verdict_on(path) is None ==> r.work.nodes >= one_more(work.nodes)
                && r.work.seldepth >= ply
        }),
    decreases 130 - ply, 3int, 0int,
{
    if verdict_on(path) is None {
        if depth > 0 && ply < 128 {
            lemma_searched_follows(leash, d, path, -beta, -alpha, depth, ply, work);
        } else {
            lemma_quiesced_follows(leash, d, -beta, -alpha, 0, ply, work);
        }
    }
}

proof fn lemma_searched_follows(
    leash: Leash,
    d: Diagram,
    path: Seq<HistoryEntry>,
    alpha: int,
    beta: int,
    depth: int,
    ply: int,
    work: Work,
)
    requires
        0 <= ply < 128,
    ensures
        ({
            let r = searched(leash, d, path, alpha, beta, depth, ply, work);
            &&& follows(leash, work, r.work, r.stopped)
            &&& r.work.nodes >= one_more(work.nodes)
            &&& r.work.seldepth >= ply
        }),
    decreases 130 - ply, 2int, 0int,
{
    let entered = work.entered(ply);
    let hit = entered.memory.found(zobrist_key(d), ply);
    let known = if hit is Some {
        hit->0.mv
    } else {
        None
    };
    let list = arranged(d, legal_moves(d), known, entered.killers[ply], entered.history);
    lemma_tried_follows(leash, d, path, list, 0, alpha, beta, -32_001, None, depth, ply, entered);
    if work.memory.slots.len() > 0 {
        vstd::arithmetic::div_mod::lemma_mod_bound(
            zobrist_key(d) as int,
            work.memory.slots.len() as int,
        );
    }
}

proof fn lemma_tried_follows(
    leash: Leash,
    d: Diagram,
    path: Seq<HistoryEntry>,
    list: Seq<Move>,
    i: int,
    alpha: int,
    beta: int,
    best: int,
    best_move: Option<Move>,
    depth: int,
    ply: int,
    work: Work,
)
    requires
        0 <= ply < 128,
    ensures
        ({
            let r = tried(leash, d, path, list, i, alpha, beta, best, best_move, depth, ply, work);
            follows(leash, work, r.work, r.stopped)
        }),
    decreases 130 - ply, 1int, list.len() - i,
{
    if i < list.len() {
        let next = d.played(list[i]);
        let longer = path.push(HistoryEntry::entry(next));
        law_a_visit_stops_where_the_leash_ends(
            leash,
            next,
            longer,
            alpha,
            beta,
            depth - 1,
            ply + 1,
            work,
        );
        let child = visited(leash, next, longer, alpha, beta, depth - 1, ply + 1, work);
        if !child.stopped {
            if child.score > best && child.score > alpha {
                if child.score < beta {
                    lemma_tried_follows(
                        leash,
                        d,
                        path,
                        list,
                        i + 1,
                        child.score,
                        beta,
                        child.score,
                        Some(list[i]),
                        depth,
                        ply,
                        child.work.with_line(ply, list[i]),
                    );
                }
            } else {
                lemma_tried_follows(
                    leash,
                    d,
                    path,
                    list,
                    i + 1,
                    alpha,
                    beta,
                    if child.score > best {
                        child.score
                    } else {
                        best
                    },
                    best_move,
                    depth,
                    ply,
                    child.work,
                );
            }
        }
    }
}

proof fn lemma_quiesced_follows(
    leash: Leash,
    d: Diagram,
    alpha: int,
    beta: int,
    depth: int,
    ply: int,
    work: Work,
)
    requires
        0 <= ply <= 128,
    ensures
        ({
            let r = quiesced(leash, d, alpha, beta, depth, ply, work);
            &&& follows(leash, work, r.work, r.stopped)
            &&& r.work.nodes >= one_more(work.nodes)
            &&& r.work.seldepth >= ply
        }),
    decreases 130 - ply, 2int, 0int,
{
    let entered = work.entered(ply);
    let legal = legal_moves(d);
    if ply < 128 {
        if in_check(d) {
            lemma_exchanged_follows(
                leash,
                d,
                captures_first(d, legal),
                0,
                alpha,
                beta,
                -32_001,
                depth - 1,
                ply,
                entered,
            );
        } else {
            lemma_exchanged_follows(
                leash,
                d,
                captures_first(d, taking(d, legal)),
                0,
                if material(d) > alpha {
                    material(d)
                } else {
                    alpha
                },
                beta,
                material(d),
                depth,
                ply,
                entered,
            );
        }
    }
}

proof fn lemma_exchanged_follows(
    leash: Leash,
    d: Diagram,
    list: Seq<Move>,
    i: int,
    alpha: int,
    beta: int,
    best: int,
    depth: int,
    ply: int,
    work: Work,
)
    requires
        0 <= ply < 128,
    ensures
        ({
            let r = exchanged_out(leash, d, list, i, alpha, beta, best, depth, ply, work);
            follows(leash, work, r.work, r.stopped)
        }),
    decreases 130 - ply, 1int, list.len() - i,
{
    if i < list.len() {
        let next = d.played(list[i]);
        lemma_quiesced_follows(leash, next, -beta, -alpha, depth, ply + 1, work);
        let child = quiesced(leash, next, -beta, -alpha, depth, ply + 1, work);
        let score = -child.score;
        if !child.stopped {
            if score > best && score > alpha {
                if score < beta {
                    lemma_exchanged_follows(
                        leash,
                        d,
                        list,
                        i + 1,
                        score,
                        beta,
                        score,
                        depth,
                        ply,
                        child.work.with_line(ply, list[i]),
                    );
                }
            } else {
                lemma_exchanged_follows(
                    leash,
                    d,
                    list,
                    i + 1,
                    alpha,
                    beta,
                    if score > best {
                        score
                    } else {
                        best
                    },
                    depth,
                    ply,
                    child.work,
                );
            }
        }
    }
}

/// What a search that nobody ends is on.
pub open spec fn no_leash() -> Leash {
    Leash { limit: None, cut: None }
}

/// Whether a move takes a piece.
pub open spec fn takes(d: Diagram, mv: Move) -> bool {
    mv matches Move::Normal { from, to, .. } && d.at(from) is Some && d.at(to) is Some
}

/// What a position is worth to the side to move once the exchanges are played
/// out, with every capture looked at: out of check the side may also decline them
/// all, and stay with its material; in check every move is looked at, twice in a
/// line and no more; and a side in check without a move is mated.
pub open spec fn quiet_worth(d: Diagram, depth: int, ply: int) -> int
    decreases 130 - ply, 1int, 0int,
    when 0 <= ply <= 128
{
    if ply == 128 || (in_check(d) && depth <= -2) {
        material(d)
    } else if in_check(d) && legal_moves(d).len() == 0 {
        -32_000 + ply
    } else if in_check(d) {
        best_exchange(d, legal_moves(d).len() as int, -32_001, depth - 1, ply)
    } else {
        best_exchange(d, legal_moves(d).len() as int, material(d), depth, ply)
    }
}

/// The best of `least` and what the first `n` legal moves are worth that are
/// looked at.
pub open spec fn best_exchange(d: Diagram, n: int, least: int, depth: int, ply: int) -> int
    decreases 130 - ply, 0int, n,
    when 0 <= ply < 128
{
    if n <= 0 {
        least
    } else {
        let rest = best_exchange(d, n - 1, least, depth, ply);
        let mv = legal_moves(d)[n - 1];
        let worth = -quiet_worth(d.played(mv), depth, ply + 1);
        if (in_check(d) || takes(d, mv)) && worth > rest {
            worth
        } else {
            rest
        }
    }
}

proof fn lemma_best_exchange(d: Diagram, n: int, least: int, depth: int, ply: int)
    requires
        0 <= ply < 128,
        0 <= n <= legal_moves(d).len(),
    ensures
        best_exchange(d, n, least, depth, ply) >= least,
        forall|k: int|
            #![trigger legal_moves(d)[k]]
            0 <= k < n && (in_check(d) || takes(d, legal_moves(d)[k])) ==> -quiet_worth(
                d.played(legal_moves(d)[k]),
                depth,
                ply + 1,
            ) <= best_exchange(d, n, least, depth, ply),
    decreases n,
{
    if n > 0 {
        lemma_best_exchange(d, n - 1, least, depth, ply);
    }
}

proof fn lemma_best_exchange_within(
    d: Diagram,
    n: int,
    least: int,
    depth: int,
    ply: int,
    most: int,
)
    requires
        0 <= ply < 128,
        0 <= n <= legal_moves(d).len(),
        least <= most,
        forall|k: int|
            #![trigger legal_moves(d)[k]]
            0 <= k < n && (in_check(d) || takes(d, legal_moves(d)[k])) ==> -quiet_worth(
                d.played(legal_moves(d)[k]),
                depth,
                ply + 1,
            ) <= most,
    ensures
        best_exchange(d, n, least, depth, ply) <= most,
    decreases n,
{
    if n > 0 {
        lemma_best_exchange_within(d, n - 1, least, depth, ply, most);
        assert(legal_moves(d)[n - 1] == legal_moves(d)[n - 1]);
    }
}

/// A score found in a window says what it says of a value: below the upper edge
/// the value is no more, and above the lower edge it is no less. Strictly inside
/// it is the value.
pub open spec fn tells_of(score: int, alpha: int, beta: int, value: int) -> bool {
    &&& score < beta ==> value <= score
    &&& score > alpha ==> value >= score
}

proof fn lemma_taking(d: Diagram, list: Seq<Move>, mv: Move)
    ensures
        taking(d, list).contains(mv) <==> list.contains(mv) && takes(d, mv),
    decreases list.len(),
{
    if list.len() > 0 {
        let head = list.drop_last();
        let last = list.last();
        lemma_taking(d, head, mv);
        assert(list =~= head.push(last));
        if list.contains(mv) && !head.contains(mv) {
            let k = choose|k: int| 0 <= k < list.len() && list[k] == mv;
            if k < head.len() {
                assert(head[k] == mv);
            }
        }
        if head.contains(mv) {
            let k = choose|k: int| 0 <= k < head.len() && head[k] == mv;
            assert(list[k] == mv);
        }
        assert(list[list.len() - 1] == last);
        let inner = taking(d, head);
        if taking(d, list).contains(mv) {
            let k = choose|k: int| 0 <= k < taking(d, list).len() && taking(d, list)[k] == mv;
            if k < inner.len() {
                assert(inner[k] == mv);
            }
        }
        if inner.contains(mv) {
            let k = choose|k: int| 0 <= k < inner.len() && inner[k] == mv;
            assert(taking(d, list)[k] == mv);
        }
        if last == mv && takes(d, mv) {
            assert(taking(d, list)[inner.len() as int] == mv);
        }
    }
}

proof fn lemma_same_members(a: Seq<Move>, b: Seq<Move>, mv: Move)
    requires
        a.to_multiset() == b.to_multiset(),
    ensures
        a.contains(mv) == b.contains(mv),
{
    broadcast use vstd::seq_lib::group_to_multiset_ensures;

    assert(a.to_multiset().count(mv) > 0 <==> a.contains(mv));
    assert(b.to_multiset().count(mv) > 0 <==> b.contains(mv));
}

/// Playing the exchanges out finds what the position is worth: in any window, the
/// score tells of the worth that looking at every capture gives.
pub proof fn law_the_exchanges_are_played_out(
    d: Diagram,
    alpha: int,
    beta: int,
    depth: int,
    ply: int,
    work: Work,
)
    requires
        0 <= ply <= 128,
        -32_001 <= alpha < beta <= 32_001,
    ensures
        tells_of(
            quiesced(no_leash(), d, alpha, beta, depth, ply, work).score,
            alpha,
            beta,
            quiet_worth(d, depth, ply),
        ),
        !quiesced(no_leash(), d, alpha, beta, depth, ply, work).stopped,
    decreases 130 - ply, 1int, 0int,
{
    lemma_quiesced_follows(no_leash(), d, alpha, beta, depth, ply, work);
    let entered = work.entered(ply);
    let legal = legal_moves(d);
    let r = quiesced(no_leash(), d, alpha, beta, depth, ply, work).score;
    if ply < 128 && !(in_check(d) && depth <= -2) {
        if in_check(d) {
            if legal.len() > 0 {
                let list = captures_first(d, legal);
                law_ordering_is_a_permutation(d, legal);
                lemma_exchanged_tells(d, list, 0, alpha, beta, -32_001, depth - 1, ply, entered);
                lemma_worth_from_list(d, list, r, alpha, beta, -32_001, depth - 1, ply);
            }
        } else if material(d) < beta {
            let list = captures_first(d, taking(d, legal));
            let raised = if material(d) > alpha {
                material(d)
            } else {
                alpha
            };
            law_ordering_is_a_permutation(d, taking(d, legal));
            lemma_exchanged_tells(d, list, 0, raised, beta, material(d), depth, ply, entered);
            lemma_worth_from_list(d, list, r, raised, beta, material(d), depth, ply);
            lemma_best_exchange(d, legal.len() as int, material(d), depth, ply);
        } else {
            lemma_best_exchange(d, legal.len() as int, material(d), depth, ply);
        }
    }
}

/// What the moves of a list are worth decides what a node that looks at them is.
proof fn lemma_worth_from_list(
    d: Diagram,
    list: Seq<Move>,
    r: int,
    alpha: int,
    beta: int,
    least: int,
    depth: int,
    ply: int,
)
    requires
        0 <= ply < 128,
        in_check(d) ==> list.to_multiset() == legal_moves(d).to_multiset(),
        !in_check(d) ==> list.to_multiset() == taking(d, legal_moves(d)).to_multiset(),
        r >= least,
        r < beta ==> forall|k: int|
            0 <= k < list.len() ==> -quiet_worth(d.played(#[trigger] list[k]), depth, ply + 1) <= r,
        r > alpha ==> exists|k: int|
            0 <= k < list.len() && -quiet_worth(d.played(#[trigger] list[k]), depth, ply + 1) >= r,
    ensures
        tells_of(
            r,
            alpha,
            beta,
            best_exchange(d, legal_moves(d).len() as int, least, depth, ply),
        ),
{
    let legal = legal_moves(d);
    let n = legal.len() as int;
    lemma_best_exchange(d, n, least, depth, ply);
    if r > alpha {
        let k = choose|k: int|
            0 <= k < list.len() && -quiet_worth(d.played(#[trigger] list[k]), depth, ply + 1) >= r;
        let mv = list[k];
        assert(list.contains(mv));
        lemma_taking(d, legal, mv);
        if in_check(d) {
            lemma_same_members(list, legal, mv);
        } else {
            lemma_same_members(list, taking(d, legal), mv);
        }
        let j = choose|j: int| 0 <= j < legal.len() && legal[j] == mv;
        assert(legal[j] == mv);
    }
    if r < beta {
        assert forall|j: int|
            #![trigger legal_moves(d)[j]]
            0 <= j < n && (in_check(d) || takes(d, legal_moves(d)[j])) implies -quiet_worth(
            d.played(legal_moves(d)[j]),
            depth,
            ply + 1,
        ) <= r by {
            let mv = legal[j];
            assert(legal.contains(mv));
            lemma_taking(d, legal, mv);
            if in_check(d) {
                lemma_same_members(list, legal, mv);
            } else {
                lemma_same_members(list, taking(d, legal), mv);
            }
            let k = choose|k: int| 0 <= k < list.len() && list[k] == mv;
            assert(list[k] == mv);
        }
        lemma_best_exchange_within(d, n, least, depth, ply, r);
    }
}

proof fn lemma_exchanged_tells(
    d: Diagram,
    list: Seq<Move>,
    i: int,
    alpha: int,
    beta: int,
    best: int,
    depth: int,
    ply: int,
    work: Work,
)
    requires
        0 <= ply < 128,
        0 <= i,
        -32_001 <= alpha < beta <= 32_001,
        best <= alpha,
    ensures
        ({
            let r = exchanged_out(no_leash(), d, list, i, alpha, beta, best, depth, ply, work).score;
            &&& r >= best
            &&& r < beta ==> forall|k: int|
                i <= k < list.len() ==> -quiet_worth(d.played(#[trigger] list[k]), depth, ply + 1)
                    <= r
            &&& r > alpha ==> exists|k: int|
                i <= k < list.len() && -quiet_worth(d.played(#[trigger] list[k]), depth, ply + 1)
                    >= r
        }),
    decreases 130 - ply, 0int, list.len() - i,
{
    if i < list.len() {
        let next = d.played(list[i]);
        law_the_exchanges_are_played_out(next, -beta, -alpha, depth, ply + 1, work);
        let child = quiesced(no_leash(), next, -beta, -alpha, depth, ply + 1, work);
        let score = -child.score;
        if score > best && score > alpha {
            if score < beta {
                lemma_exchanged_tells(
                    d,
                    list,
                    i + 1,
                    score,
                    beta,
                    score,
                    depth,
                    ply,
                    child.work.with_line(ply, list[i]),
                );
            }
        } else {
            lemma_exchanged_tells(
                d,
                list,
                i + 1,
                alpha,
                beta,
                if score > best {
                    score
                } else {
                    best
                },
                depth,
                ply,
                child.work,
            );
        }
    }
}

/// The visit that a node of `depth` at `ply` makes to what `mv` leads to.
pub open spec fn visit(
    leash: Leash,
    d: Diagram,
    path: Seq<HistoryEntry>,
    mv: Move,
    alpha: int,
    beta: int,
    depth: int,
    ply: int,
    work: Work,
) -> Outcome {
    let next = d.played(mv);
    visited(
        leash,
        next,
        path.push(HistoryEntry::entry(next)),
        alpha,
        beta,
        depth - 1,
        ply + 1,
        work,
    )
}

/// Whether a node looked at `mv`, in a window that began at `alpha` or above, and
/// it came to no more than `most`.
pub open spec fn looked_at(
    leash: Leash,
    d: Diagram,
    path: Seq<HistoryEntry>,
    mv: Move,
    alpha: int,
    beta: int,
    depth: int,
    ply: int,
    most: int,
) -> bool {
    exists|a: int, w: Work| #[trigger]
        visit(leash, d, path, mv, a, beta, depth, ply, w).score <= most && a >= alpha && !visit(
            leash,
            d,
            path,
            mv,
            a,
            beta,
            depth,
            ply,
            w,
        ).stopped
}

/// Whether a node looked at `mv`, in a window that began at `alpha` or above, and
/// it came to just `score`.
pub open spec fn came_to(
    leash: Leash,
    d: Diagram,
    path: Seq<HistoryEntry>,
    mv: Move,
    alpha: int,
    beta: int,
    depth: int,
    ply: int,
    score: int,
) -> bool {
    exists|a: int, w: Work| #[trigger]
        visit(leash, d, path, mv, a, beta, depth, ply, w).score == score && a >= alpha && !visit(
            leash,
            d,
            path,
            mv,
            a,
            beta,
            depth,
            ply,
            w,
        ).stopped
}

/// What a node that a move leads to is worth to the side that made the move: what
/// the rules say of a position met for the fourth time, and otherwise the other
/// side's score turned round. A node with no depth left has its exchanges played
/// out.
pub proof fn law_a_visit_turns_the_score_round(
    leash: Leash,
    d: Diagram,
    path: Seq<HistoryEntry>,
    alpha: int,
    beta: int,
    depth: int,
    ply: int,
    work: Work,
)
    requires
        0 <= ply <= 128,
    ensures
        ({
            let r = visited(leash, d, path, alpha, beta, depth, ply, work);
            &&& verdict_on(path) matches Some(repetition) ==> {
                &&& r.score == -repetition.value()
                &&& !r.stopped
                &&& r.work.nodes == work.nodes
                &&& r.work.memory == work.memory
            }
            &&& verdict_on(path) is None && (depth <= 0 || ply == 128) ==> r.score == -quiesced(
                leash,
                d,
                -beta,
                -alpha,
                0,
                ply,
                work,
            ).score
            &&& verdict_on(path) is None && depth > 0 && ply < 128 ==> r.score == -searched(
                leash,
                d,
                path,
                -beta,
                -alpha,
                depth,
                ply,
                work,
            ).score
            &&& verdict_on(path) is None && (depth <= 0 || ply == 128) && leash == no_leash()
                && -32_001 <= alpha < beta <= 32_001 ==> tells_of(
                r.score,
                alpha,
                beta,
                -quiet_worth(d, 0, ply),
            )
        }),
{
    if -32_001 <= alpha < beta <= 32_001 {
        law_the_exchanges_are_played_out(d, -beta, -alpha, 0, ply, work);
    }
}

#[verifier::rlimit(30)]
proof fn lemma_tried_looks(
    leash: Leash,
    d: Diagram,
    path: Seq<HistoryEntry>,
    list: Seq<Move>,
    i: int,
    alpha: int,
    beta: int,
    best: int,
    best_move: Option<Move>,
    depth: int,
    ply: int,
    work: Work,
)
    requires
        0 <= ply < 128,
        0 <= i,
        best <= alpha,
    ensures
        ({
            let r = tried(leash, d, path, list, i, alpha, beta, best, best_move, depth, ply, work);
            !r.stopped ==> {
                &&& r.best >= best
                &&& r.alpha == if r.best > alpha {
                    r.best
                } else {
                    alpha
                }
                &&& r.best < beta ==> forall|k: int|
                    i <= k < list.len() ==> looked_at(
                        leash,
                        d,
                        path,
                        #[trigger] list[k],
                        alpha,
                        beta,
                        depth,
                        ply,
                        r.best,
                    )
                &&& r.best > best ==> exists|k: int|
                    i <= k < list.len() && came_to(
                        leash,
                        d,
                        path,
                        #[trigger] list[k],
                        alpha,
                        beta,
                        depth,
                        ply,
                        r.best,
                    )
                &&& r.best > alpha ==> r.best_move is Some && list.contains(r.best_move->0)
                    && came_to(
                    leash,
                    d,
                    path,
                    r.best_move->0,
                    alpha,
                    beta,
                    depth,
                    ply,
                    r.best,
                )
                &&& r.best <= alpha ==> r.best_move == best_move
            }
        }),
    decreases list.len() - i,
{
    if i < list.len() {
        let mv = list[i];
        let child = visit(leash, d, path, mv, alpha, beta, depth, ply, work);
        if !child.stopped {
            let r = tried(leash, d, path, list, i, alpha, beta, best, best_move, depth, ply, work);
            if child.score > best && child.score > alpha {
                if child.score < beta {
                    let raised = child.work.with_line(ply, mv);
                    lemma_tried_looks(
                        leash,
                        d,
                        path,
                        list,
                        i + 1,
                        child.score,
                        beta,
                        child.score,
                        Some(mv),
                        depth,
                        ply,
                        raised,
                    );
                    if !r.stopped {
                        lemma_from_a_higher_edge(
                            leash,
                            d,
                            path,
                            list,
                            i + 1,
                            alpha,
                            child.score,
                            beta,
                            depth,
                            ply,
                            r.best,
                        );
                        assert(looked_at(leash, d, path, mv, alpha, beta, depth, ply, r.best));
                        if r.best == child.score {
                            assert(came_to(leash, d, path, mv, alpha, beta, depth, ply, r.best));
                            assert(list[i] == mv);
                        } else {
                            let w = r.best_move->0;
                            let (a, x) = choose|a: int, x: Work| #[trigger]
                                visit(leash, d, path, w, a, beta, depth, ply, x).score == r.best
                                    && a >= child.score && !visit(
                                    leash,
                                    d,
                                    path,
                                    w,
                                    a,
                                    beta,
                                    depth,
                                    ply,
                                    x,
                                ).stopped;
                            assert(visit(leash, d, path, w, a, beta, depth, ply, x).score == r.best);
                        }
                    }
                } else {
                    assert(came_to(leash, d, path, mv, alpha, beta, depth, ply, child.score));
                    assert(list[i] == mv);
                }
            } else {
                lemma_tried_looks(
                    leash,
                    d,
                    path,
                    list,
                    i + 1,
                    alpha,
                    beta,
                    if child.score > best {
                        child.score
                    } else {
                        best
                    },
                    best_move,
                    depth,
                    ply,
                    child.work,
                );
                if !r.stopped {
                    assert(looked_at(leash, d, path, mv, alpha, beta, depth, ply, r.best));
                    if r.best == child.score {
                        assert(came_to(leash, d, path, mv, alpha, beta, depth, ply, r.best));
                        assert(list[i] == mv);
                    }
                }
            }
        }
    }
}

/// What was looked at in a window that began higher was looked at.
proof fn lemma_from_a_higher_edge(
    leash: Leash,
    d: Diagram,
    path: Seq<HistoryEntry>,
    list: Seq<Move>,
    i: int,
    alpha: int,
    higher: int,
    beta: int,
    depth: int,
    ply: int,
    score: int,
)
    requires
        alpha <= higher,
    ensures
        forall|k: int|
            i <= k < list.len() && looked_at(
                leash,
                d,
                path,
                #[trigger] list[k],
                higher,
                beta,
                depth,
                ply,
                score,
            ) ==> looked_at(leash, d, path, list[k], alpha, beta, depth, ply, score),
        forall|k: int|
            i <= k < list.len() && came_to(
                leash,
                d,
                path,
                #[trigger] list[k],
                higher,
                beta,
                depth,
                ply,
                score,
            ) ==> came_to(leash, d, path, list[k], alpha, beta, depth, ply, score),
{
    assert forall|k: int|
        i <= k < list.len() && looked_at(
            leash,
            d,
            path,
            #[trigger] list[k],
            higher,
            beta,
            depth,
            ply,
            score,
        ) implies looked_at(leash, d, path, list[k], alpha, beta, depth, ply, score) by {
        let mv = list[k];
        let (a, w) = choose|a: int, w: Work| #[trigger]
            visit(leash, d, path, mv, a, beta, depth, ply, w).score <= score && a >= higher
                && !visit(leash, d, path, mv, a, beta, depth, ply, w).stopped;
        assert(visit(leash, d, path, mv, a, beta, depth, ply, w).score <= score);
    }
    assert forall|k: int|
        i <= k < list.len() && came_to(
            leash,
            d,
            path,
            #[trigger] list[k],
            higher,
            beta,
            depth,
            ply,
            score,
        ) implies came_to(leash, d, path, list[k], alpha, beta, depth, ply, score) by {
        let mv = list[k];
        let (a, w) = choose|a: int, w: Work| #[trigger]
            visit(leash, d, path, mv, a, beta, depth, ply, w).score == score && a >= higher
                && !visit(leash, d, path, mv, a, beta, depth, ply, w).stopped;
        assert(visit(leash, d, path, mv, a, beta, depth, ply, w).score == score);
    }
}

/// The node count after one node more.
pub open spec fn one_more(nodes: u64) -> u64 {
    if nodes == u64::MAX {
        nodes
    } else {
        (nodes + 1) as u64
    }
}

/// Whether what the table holds of the position is enough to leave the node at
/// once: it was searched as deep, and its score lies past the edge of the window
/// that its bound speaks of.
pub open spec fn is_known(
    memory: Memory,
    d: Diagram,
    alpha: int,
    beta: int,
    depth: int,
    ply: int,
) -> bool {
    let hit = memory.found(zobrist_key(d), ply);
    &&& hit is Some
    &&& hit->0.depth >= depth
    &&& {
        ||| hit->0.score.0 >= beta && hit->0.bound != Bound::Upper
        ||| hit->0.score.0 <= alpha && hit->0.bound != Bound::Lower
    }
}

/// A node is left at once where the search ends, or where the table knows enough
/// of it; a side without a move is mated, the sooner the worse. Otherwise every
/// legal move is looked at, unless one reaches the upper edge of the window; the
/// score is what the best of them came to, and no move that was looked at came to
/// more.
#[verifier::rlimit(30)]
pub proof fn law_a_node_is_worth_its_best_move(
    leash: Leash,
    d: Diagram,
    path: Seq<HistoryEntry>,
    alpha: int,
    beta: int,
    depth: int,
    ply: int,
    work: Work,
)
    requires
        0 <= ply < 128,
        -32_001 <= alpha,
    ensures
        ({
            let r = searched(leash, d, path, alpha, beta, depth, ply, work);
            let legal = legal_moves(d);
            let hit = work.memory.found(zobrist_key(d), ply);
            if ends_at(leash, one_more(work.nodes)) {
                r.stopped && r.score == 0 && r.work.memory == work.memory && r.work.nodes
                    == one_more(work.nodes)
            } else if is_known(work.memory, d, alpha, beta, depth, ply) {
                !r.stopped && r.score == hit->0.score.0 && r.work.memory == work.memory
                    && r.work.nodes == one_more(work.nodes)
            } else if legal.len() == 0 {
                !r.stopped && r.score == -32_000 + ply && r.work.memory == work.memory
                    && r.work.nodes == one_more(work.nodes)
            } else {
                !r.stopped ==> {
                    &&& r.score < beta ==> forall|mv: Move| #[trigger]
                        legal.contains(mv) ==> looked_at(
                            leash,
                            d,
                            path,
                            mv,
                            alpha,
                            beta,
                            depth,
                            ply,
                            r.score,
                        )
                    &&& r.score > -32_001 ==> exists|mv: Move| #[trigger]
                        legal.contains(mv) && came_to(
                            leash,
                            d,
                            path,
                            mv,
                            alpha,
                            beta,
                            depth,
                            ply,
                            r.score,
                        )
                    &&& r.score >= -32_001
                }
            }
        }),
{
    let entered = work.entered(ply);
    let hit = entered.memory.found(zobrist_key(d), ply);
    let legal = legal_moves(d);
    assert(entered.nodes == one_more(work.nodes));
    assert(entered.memory == work.memory);
    let known = if hit is Some {
        hit->0.mv
    } else {
        None
    };
    let list = arranged(d, legal, known, entered.killers[ply], entered.history);
    law_arranging_is_a_permutation(d, legal, known, entered.killers[ply], entered.history);
    lemma_tried_looks(leash, d, path, list, 0, alpha, beta, -32_001, None, depth, ply, entered);
    let t = tried(leash, d, path, list, 0, alpha, beta, -32_001, None, depth, ply, entered);
    if !t.stopped {
        assert forall|mv: Move| #[trigger] legal.contains(mv) && t.best < beta implies looked_at(
            leash,
            d,
            path,
            mv,
            alpha,
            beta,
            depth,
            ply,
            t.best,
        ) by {
            lemma_same_members(list, legal, mv);
            let k = choose|k: int| 0 <= k < list.len() && list[k] == mv;
            assert(list[k] == mv);
        }
        if t.best > -32_001 {
            let k = choose|k: int|
                0 <= k < list.len() && came_to(
                    leash,
                    d,
                    path,
                    #[trigger] list[k],
                    alpha,
                    beta,
                    depth,
                    ply,
                    t.best,
                );
            assert(list.contains(list[k]));
            lemma_same_members(list, legal, list[k]);
        }
    }
}

/// What a node has proved is in the table when the node is left: the score, as
/// deep as it was searched, with what it says of the value in the window, and the
/// move that raised the window; unless the slot holds a deeper result of the same
/// search, which stays.
#[verifier::rlimit(30)]
pub proof fn law_a_node_leaves_what_it_proved(
    leash: Leash,
    d: Diagram,
    path: Seq<HistoryEntry>,
    alpha: int,
    beta: int,
    depth: int,
    ply: int,
    work: Work,
)
    requires
        0 <= ply < 128,
        -32_001 <= alpha < beta,
        0 < depth < 128,
        work.memory.well_formed(),
        legal_moves(d).len() > 0,
        !is_known(work.memory, d, alpha, beta, depth, ply),
        !ends_at(leash, one_more(work.nodes)),
        !searched(leash, d, path, alpha, beta, depth, ply, work).stopped,
        -32_000 + ply <= searched(leash, d, path, alpha, beta, depth, ply, work).score <= 32_000
            - ply,
    ensures
        ({
            let r = searched(leash, d, path, alpha, beta, depth, ply, work);
            let memory = r.work.memory;
            let slot = memory.slots[memory.place(zobrist_key(d))];
            let hit = memory.found(zobrist_key(d), ply);
            ||| {
                &&& hit is Some
                &&& hit->0.score.0 == r.score
                &&& hit->0.depth == depth
                &&& hit->0.bound == Bound::Lower <==> r.score >= beta
                &&& hit->0.bound == Bound::Upper <==> r.score <= alpha
                &&& hit->0.bound == Bound::Exact <==> alpha < r.score < beta
                &&& r.score > alpha ==> hit->0.mv is Some && legal_moves(d).contains(
                    hit->0.mv->0,
                ) && came_to(
                    leash,
                    d,
                    path,
                    hit->0.mv->0,
                    alpha,
                    beta,
                    depth,
                    ply,
                    r.score,
                )
            }
            ||| memory.is_fresh(slot) && slot.depth > depth
        }),
{
    let entered = work.entered(ply);
    assert(entered.nodes == one_more(work.nodes));
    assert(entered.memory == work.memory);
    let legal = legal_moves(d);
    let hit = entered.memory.found(zobrist_key(d), ply);
    let known = if hit is Some {
        hit->0.mv
    } else {
        None
    };
    let list = arranged(d, legal, known, entered.killers[ply], entered.history);
    law_arranging_is_a_permutation(d, legal, known, entered.killers[ply], entered.history);
    lemma_tried_looks(leash, d, path, list, 0, alpha, beta, -32_001, None, depth, ply, entered);
    lemma_tried_follows(leash, d, path, list, 0, alpha, beta, -32_001, None, depth, ply, entered);
    let t = tried(leash, d, path, list, 0, alpha, beta, -32_001, None, depth, ply, entered);
    if t.best_move is Some && t.best > alpha {
        lemma_same_members(list, legal, t.best_move->0);
    }
    let memory = t.work.memory;
    law_a_bound_round_trips(memory.generation, Bound::Upper);
    law_a_bound_round_trips(memory.generation, Bound::Lower);
    law_a_bound_round_trips(memory.generation, Bound::Exact);
    vstd::arithmetic::div_mod::lemma_mod_bound(
        zobrist_key(d) as int,
        memory.slots.len() as int,
    );
}

#[verifier::rlimit(30)]
proof fn lemma_rooted_looks(
    first: Leash,
    leash: Leash,
    d: Diagram,
    path: Seq<HistoryEntry>,
    list: Seq<Move>,
    i: int,
    best: Option<int>,
    depth: int,
    work: Work,
)
    requires
        0 <= i,
        work.lines.len() == 129,
        best is Some ==> best->0 > -32_001,
    ensures
        ({
            let r = rooted(first, leash, d, path, list, i, best, depth, work);
            &&& best is Some ==> r.best is Some && r.best->0 >= best->0
            &&& r.best is Some ==> r.best->0 > -32_001
            &&& !r.stopped ==> forall|k: int|
                i <= k < list.len() ==> was_looked_at_from_the_root(
                    first,
                    leash,
                    d,
                    path,
                    #[trigger] list[k],
                    depth,
                    if r.best is Some {
                        r.best->0
                    } else {
                        -32_001
                    },
                )
            &&& r.best != best ==> {
                &&& r.best is Some
                &&& r.work.lines.len() == 129
                &&& r.work.lines[0].len() > 0
                &&& list.contains(r.work.lines[0][0])
                &&& came_to_at_the_root(
                    first,
                    leash,
                    d,
                    path,
                    r.work.lines[0][0],
                    depth,
                    r.best->0,
                )
                &&& {
                    ||| left_its_line(first, d, path, depth, r.best->0, r.work.lines[0])
                    ||| left_its_line(leash, d, path, depth, r.best->0, r.work.lines[0])
                }
            }
            &&& r.best == best ==> r.work.lines.len() == 129 && r.work.lines[0] == work.lines[0]
            &&& work.nodes <= r.work.nodes
            &&& r.stopped ==> ends_at(leash, r.work.nodes) || ends_at(first, r.work.nodes)
        }),
    decreases list.len() - i,
{
    if i < list.len() {
        let next = d.played(list[i]);
        let longer = path.push(HistoryEntry::entry(next));
        let alpha = if best is Some {
            best->0
        } else {
            -32_001
        };
        let used = if i == 0 {
            first
        } else {
            leash
        };
        let child = visit(used, d, path, list[i], alpha, 32_001, depth, 0, work);
        law_a_visit_stops_where_the_leash_ends(
            used,
            next,
            longer,
            alpha,
            32_001,
            depth - 1,
            1,
            work,
        );
        lemma_visited_line(
            used,
            next,
            longer,
            alpha,
            32_001,
            depth - 1,
            1,
            work,
        );
        assert(child.work.lines[0] == work.lines[0]);
        if !child.stopped {
            if child.score > alpha {
                let raised = child.work.with_line(0, list[i]);
                assert(raised.lines[0][0] == list[i]);
                assert(visit(used, d, path, list[i], alpha, 32_001, depth, 0, work).score
                    == child.score);
                assert(left_its_line(used, d, path, depth, child.score, raised.lines[0]));
                lemma_rooted_looks(
                    first,
                    leash,
                    d,
                    path,
                    list,
                    i + 1,
                    Some(child.score),
                    depth,
                    raised,
                );
                assert(came_to(used, d, path, list[i], -32_001, 32_001, depth, 0, child.score));
            } else {
                lemma_rooted_looks(first, leash, d, path, list, i + 1, best, depth, child.work);
            }
            let r = rooted(first, leash, d, path, list, i, best, depth, work);
            let most = if r.best is Some {
                r.best->0
            } else {
                -32_001
            };
            assert(visit(used, d, path, list[i], alpha, 32_001, depth, 0, work).score <= most);
            assert(looked_at(used, d, path, list[i], -32_001, 32_001, depth, 0, most));
        }
    }
}

/// Whether a move at the root was looked at and came to no more than `most`.
pub open spec fn was_looked_at_from_the_root(
    first: Leash,
    leash: Leash,
    d: Diagram,
    path: Seq<HistoryEntry>,
    mv: Move,
    depth: int,
    most: int,
) -> bool {
    ||| looked_at(first, d, path, mv, -32_001, 32_001, depth, 0, most)
    ||| looked_at(leash, d, path, mv, -32_001, 32_001, depth, 0, most)
}

/// Whether a move at the root was looked at and came to just `score`.
pub open spec fn came_to_at_the_root(
    first: Leash,
    leash: Leash,
    d: Diagram,
    path: Seq<HistoryEntry>,
    mv: Move,
    depth: int,
    score: int,
) -> bool {
    ||| came_to(first, d, path, mv, -32_001, 32_001, depth, 0, score)
    ||| came_to(leash, d, path, mv, -32_001, 32_001, depth, 0, score)
}

/// Whether a line is what a visit to what its first move leads to left behind: that
/// move, and then the line from there; and the visit came to `score`.
pub open spec fn left_its_line(
    leash: Leash,
    d: Diagram,
    path: Seq<HistoryEntry>,
    depth: int,
    score: int,
    line: Seq<Move>,
) -> bool {
    exists|a: int, w: Work| {
        let child = #[trigger] visit(leash, d, path, line[0], a, 32_001, depth, 0, w);
        child.score == score && !child.stopped && line == seq![line[0]] + child.work.lines[1]
    }
}

/// An iteration that was not stopped has looked at every move at the root; the
/// one that is answered came to the score that is told, and none came to more. It
/// begins the line that is told, and is tried first in the next iteration. The
/// iteration counts as done to its end exactly if it was not stopped.
pub proof fn law_an_iteration_answers_its_best_move(
    leash: Leash,
    d: Diagram,
    path: Seq<HistoryEntry>,
    depth: int,
    session: Session,
)
    requires
        session.work.lines.len() == 129,
        iterated(leash, d, path, depth, session).best is Some,
    ensures
        ({
            let iteration = iterated(leash, d, path, depth, session);
            let next = advanced(depth, session, iteration);
            let report = next.reports.last();
            let first = if depth == 1 {
                Leash { limit: None, cut: leash.cut }
            } else {
                leash
            };
            &&& next.reports.drop_last() == session.reports
            &&& report.depth == depth
            &&& report.nodes == next.work.nodes
            &&& report.seldepth == next.work.seldepth
            &&& report.hashfull == Some(fullness(next.work.memory))
            &&& report.score == iteration.best->0
            &&& report.line == next.work.lines[0]
            &&& report.line.len() > 0
            &&& next.best == report.line[0]
            &&& session.roots.contains(next.best)
            &&& next.roots.len() == session.roots.len()
            &&& next.roots[0] == next.best
            &&& next.roots.to_multiset() == session.roots.to_multiset()
            &&& came_to_at_the_root(first, leash, d, path, next.best, depth, report.score)
            &&& {
                ||| left_its_line(first, d, path, depth, report.score, report.line)
                ||| left_its_line(leash, d, path, depth, report.score, report.line)
            }
            &&& !iteration.stopped ==> forall|k: int|
                0 <= k < session.roots.len() ==> was_looked_at_from_the_root(
                    first,
                    leash,
                    d,
                    path,
                    #[trigger] session.roots[k],
                    depth,
                    report.score,
                )
            &&& next.completed == if iteration.stopped {
                session.completed
            } else {
                depth
            }
            &&& session.work.nodes <= next.work.nodes
        }),
{
    let first = if depth == 1 {
        leash.relieved()
    } else {
        leash
    };
    let work = Work { seldepth: 0, ..session.work }.counted();
    lemma_rooted_looks(first, leash, d, path, session.roots, 0, None, depth, work);
    let iteration = iterated(leash, d, path, depth, session);
    let next = advanced(depth, session, iteration);
    assert(next.reports.drop_last() =~= session.reports);
    let mv = iteration.work.lines[0][0];
    lemma_first_at(session.roots, 0, mv);
    let k = choose|k: int| 0 <= k < session.roots.len() && session.roots[k] == mv;
    assert(session.roots[k] == mv);
    let place = first_at(session.roots, 0, mv)->0;
    lemma_exchanged(session.roots, 0, place);
}

/// Whether an iteration of this depth might find that no move at the root is
/// worth even the lower edge of the open window.
pub open spec fn may_find_nothing(
    leash: Leash,
    d: Diagram,
    path: Seq<HistoryEntry>,
    depth: int,
) -> bool {
    exists|session: Session| {
        let iteration = #[trigger] iterated(leash, d, path, depth, session);
        iteration.best is None && !iteration.stopped
    }
}

/// Whether a score means mate.
pub open spec fn is_a_mate(score: int) -> bool {
    score >= 31_872 || score <= -31_872
}

/// Nothing ends a search early but a mate, the node limit, a cut or the iteration
/// after which it was ended. A search that none of these ended has gone to the
/// deepest iteration that was asked for, told of every one, and done every one to
/// its end; unless no move at the root was worth anything at all.
pub proof fn law_nothing_else_ends_a_search(
    limit: Option<u64>,
    d: Diagram,
    path: Seq<HistoryEntry>,
    deepest: int,
    memory: Memory,
)
    requires
        deepest >= 1,
    ensures
        ({
            let leash = Leash { limit, cut: None };
            let end = deepened(leash, None, d, path, 1, deepest, unsearched(d, memory));
            ||| end.completed == deepest && end.reports.len() == deepest
            ||| end.reports.len() > 0 && is_a_mate(end.reports.last().score)
            ||| limit is Some && end.work.nodes >= limit->0
            ||| may_find_nothing(leash, d, path, end.reports.len() as int + 1)
        }),
{
    lemma_goes_on(limit, d, path, 1, deepest, unsearched(d, memory));
}

proof fn lemma_goes_on(
    limit: Option<u64>,
    d: Diagram,
    path: Seq<HistoryEntry>,
    depth: int,
    deepest: int,
    session: Session,
)
    requires
        1 <= depth <= deepest + 1,
        session.reports.len() == depth - 1,
        session.completed == depth - 1,
        session.work.lines.len() == 129,
    ensures
        ({
            let leash = Leash { limit, cut: None };
            let end = deepened(leash, None, d, path, depth, deepest, session);
            ||| end.completed == deepest && end.reports.len() == deepest
            ||| end.reports.len() > 0 && is_a_mate(end.reports.last().score)
            ||| limit is Some && end.work.nodes >= limit->0
            ||| may_find_nothing(leash, d, path, end.reports.len() as int + 1)
        }),
    decreases deepest - depth + 1,
{
    if depth <= deepest {
        let leash = Leash { limit, cut: None };
        let iteration = iterated(leash, d, path, depth, session);
        let first = if depth == 1 {
            leash.relieved()
        } else {
            leash
        };
        let work = Work { seldepth: 0, ..session.work }.counted();
        lemma_rooted_looks(first, leash, d, path, session.roots, 0, None, depth, work);
        if iteration.best is Some {
            let next = advanced(depth, session, iteration);
            let score = iteration.best->0;
            if !is_a_mate(score) && !iteration.stopped && !leash.spent(next.work.nodes) {
                lemma_goes_on(limit, d, path, depth + 1, deepest, next);
            }
        }
    }
}

/// How two searches relate of which one may go a ply deeper: the deeper one tells
/// what the other tells, and then at most one thing more; and if the other was
/// over before its last iteration was done, or with a mate, the two are the same.
pub proof fn law_a_deeper_search_begins_the_same(
    leash: Leash,
    last: Option<int>,
    d: Diagram,
    path: Seq<HistoryEntry>,
    deepest: int,
    memory: Memory,
)
    requires
        deepest >= 1,
    ensures
        ({
            let a = deepened(leash, last, d, path, 1, deepest, unsearched(d, memory));
            let b = deepened(leash, last, d, path, 1, deepest + 1, unsearched(d, memory));
            &&& a.reports.len() <= b.reports.len() <= a.reports.len() + 1
            &&& b.reports.take(a.reports.len() as int) == a.reports
            &&& a.work.nodes <= b.work.nodes
            &&& a.reports.len() < deepest ==> a == b
            &&& a.reports.len() > 0 && is_a_mate(a.reports.last().score) ==> a == b
        }),
{
    lemma_deeper(leash, last, d, path, 1, deepest, unsearched(d, memory));
}

#[verifier::rlimit(30)]
proof fn lemma_deeper(
    leash: Leash,
    last: Option<int>,
    d: Diagram,
    path: Seq<HistoryEntry>,
    depth: int,
    deepest: int,
    session: Session,
)
    requires
        1 <= depth <= deepest + 1,
        session.reports.len() == depth - 1,
        session.work.lines.len() == 129,
        depth > 1 ==> !is_a_mate(session.reports.last().score),
    ensures
        ({
            let a = deepened(leash, last, d, path, depth, deepest, session);
            let b = deepened(leash, last, d, path, depth, deepest + 1, session);
            &&& session.reports.len() <= a.reports.len() <= b.reports.len() <= a.reports.len() + 1
            &&& b.reports.take(a.reports.len() as int) == a.reports
            &&& a.work.nodes <= b.work.nodes
            &&& a.reports.len() < deepest ==> a == b
            &&& a.reports.len() > 0 && is_a_mate(a.reports.last().score) ==> a == b
        }),
    decreases deepest - depth + 1,
{
    let iteration = iterated(leash, d, path, depth, session);
    let first = if depth == 1 {
        leash.relieved()
    } else {
        leash
    };
    let work = Work { seldepth: 0, ..session.work }.counted();
    lemma_rooted_looks(first, leash, d, path, session.roots, 0, None, depth, work);
    let next = advanced(depth, session, iteration);
    let a = deepened(leash, last, d, path, depth, deepest, session);
    let b = deepened(leash, last, d, path, depth, deepest + 1, session);
    if depth <= deepest {
        if iteration.best is Some {
            let score = iteration.best->0;
            if !is_a_mate(score) && !iteration.stopped && !leash.spent(next.work.nodes) && last
                != Some(depth) {
                lemma_deeper(leash, last, d, path, depth + 1, deepest, next);
            } else {
                assert(a == next && b == next);
                assert(b.reports.take(a.reports.len() as int) =~= a.reports);
            }
        } else {
            assert(b.reports.take(a.reports.len() as int) =~= a.reports);
        }
    } else {
        assert(a == session);
        assert(deepened(leash, last, d, path, depth + 1, deepest + 1, next) == next);
        assert(b.reports.take(a.reports.len() as int) =~= a.reports);
    }
}

/// A leash changes nothing until it ends the search: a visit that was not stopped
/// comes to what it would have come to on no leash at all.
pub proof fn law_a_leash_that_does_not_end_changes_nothing(
    leash: Leash,
    d: Diagram,
    path: Seq<HistoryEntry>,
    alpha: int,
    beta: int,
    depth: int,
    ply: int,
    work: Work,
)
    requires
        0 <= ply <= 128,
        !visited(leash, d, path, alpha, beta, depth, ply, work).stopped,
    ensures
        visited(leash, d, path, alpha, beta, depth, ply, work) == visited(
            no_leash(),
            d,
            path,
            alpha,
            beta,
            depth,
            ply,
            work,
        ),
    decreases 130 - ply, 3int, 0int,
{
    if verdict_on(path) is None {
        if depth > 0 && ply < 128 {
            lemma_searched_unstopped(leash, d, path, -beta, -alpha, depth, ply, work);
        } else {
            law_the_exchanges_do_not_depend_on_the_leash(leash, d, -beta, -alpha, 0, ply, work);
        }
    }
}

proof fn lemma_searched_unstopped(
    leash: Leash,
    d: Diagram,
    path: Seq<HistoryEntry>,
    alpha: int,
    beta: int,
    depth: int,
    ply: int,
    work: Work,
)
    requires
        0 <= ply < 128,
        !searched(leash, d, path, alpha, beta, depth, ply, work).stopped,
    ensures
        searched(leash, d, path, alpha, beta, depth, ply, work) == searched(
            no_leash(),
            d,
            path,
            alpha,
            beta,
            depth,
            ply,
            work,
        ),
    decreases 130 - ply, 2int, 0int,
{
    let entered = work.entered(ply);
    let hit = entered.memory.found(zobrist_key(d), ply);
    let known = if hit is Some {
        hit->0.mv
    } else {
        None
    };
    let list = arranged(d, legal_moves(d), known, entered.killers[ply], entered.history);
    if !tried(leash, d, path, list, 0, alpha, beta, -32_001, None, depth, ply, entered).stopped {
        lemma_tried_unstopped(
            leash,
            d,
            path,
            list,
            0,
            alpha,
            beta,
            -32_001,
            None,
            depth,
            ply,
            entered,
        );
    }
}

proof fn lemma_tried_unstopped(
    leash: Leash,
    d: Diagram,
    path: Seq<HistoryEntry>,
    list: Seq<Move>,
    i: int,
    alpha: int,
    beta: int,
    best: int,
    best_move: Option<Move>,
    depth: int,
    ply: int,
    work: Work,
)
    requires
        0 <= ply < 128,
        !tried(leash, d, path, list, i, alpha, beta, best, best_move, depth, ply, work).stopped,
    ensures
        tried(leash, d, path, list, i, alpha, beta, best, best_move, depth, ply, work) == tried(
            no_leash(),
            d,
            path,
            list,
            i,
            alpha,
            beta,
            best,
            best_move,
            depth,
            ply,
            work,
        ),
    decreases 130 - ply, 1int, list.len() - i,
{
    if i < list.len() {
        let next = d.played(list[i]);
        let longer = path.push(HistoryEntry::entry(next));
        let child = visited(leash, next, longer, alpha, beta, depth - 1, ply + 1, work);
        assert(!child.stopped);
        law_a_leash_that_does_not_end_changes_nothing(
            leash,
            next,
            longer,
            alpha,
            beta,
            depth - 1,
            ply + 1,
            work,
        );
        if child.score > best && child.score > alpha {
            if child.score < beta {
                lemma_tried_unstopped(
                    leash,
                    d,
                    path,
                    list,
                    i + 1,
                    child.score,
                    beta,
                    child.score,
                    Some(list[i]),
                    depth,
                    ply,
                    child.work.with_line(ply, list[i]),
                );
            }
        } else {
            lemma_tried_unstopped(
                leash,
                d,
                path,
                list,
                i + 1,
                alpha,
                beta,
                if child.score > best {
                    child.score
                } else {
                    best
                },
                best_move,
                depth,
                ply,
                child.work,
            );
        }
    }
}

/// Exchanges that were played out to their end come to what they would have come
/// to on no leash at all.
pub proof fn law_the_exchanges_do_not_depend_on_the_leash(
    leash: Leash,
    d: Diagram,
    alpha: int,
    beta: int,
    depth: int,
    ply: int,
    work: Work,
)
    requires
        0 <= ply <= 128,
        !quiesced(leash, d, alpha, beta, depth, ply, work).stopped,
    ensures
        quiesced(leash, d, alpha, beta, depth, ply, work) == quiesced(
            no_leash(),
            d,
            alpha,
            beta,
            depth,
            ply,
            work,
        ),
    decreases 130 - ply, 2int, 0int,
{
    let entered = work.entered(ply);
    let legal = legal_moves(d);
    if ply < 128 && !(in_check(d) && depth <= -2) {
        if in_check(d) {
            if legal.len() > 0 {
                lemma_exchanged_unstopped(
                    leash,
                    d,
                    captures_first(d, legal),
                    0,
                    alpha,
                    beta,
                    -32_001,
                    depth - 1,
                    ply,
                    entered,
                );
            }
        } else if material(d) < beta {
            lemma_exchanged_unstopped(
                leash,
                d,
                captures_first(d, taking(d, legal)),
                0,
                if material(d) > alpha {
                    material(d)
                } else {
                    alpha
                },
                beta,
                material(d),
                depth,
                ply,
                entered,
            );
        }
    }
}

proof fn lemma_exchanged_unstopped(
    leash: Leash,
    d: Diagram,
    list: Seq<Move>,
    i: int,
    alpha: int,
    beta: int,
    best: int,
    depth: int,
    ply: int,
    work: Work,
)
    requires
        0 <= ply < 128,
        !exchanged_out(leash, d, list, i, alpha, beta, best, depth, ply, work).stopped,
    ensures
        exchanged_out(leash, d, list, i, alpha, beta, best, depth, ply, work) == exchanged_out(
            no_leash(),
            d,
            list,
            i,
            alpha,
            beta,
            best,
            depth,
            ply,
            work,
        ),
    decreases 130 - ply, 1int, list.len() - i,
{
    if i < list.len() {
        let next = d.played(list[i]);
        let child = quiesced(leash, next, -beta, -alpha, depth, ply + 1, work);
        assert(!child.stopped);
        law_the_exchanges_do_not_depend_on_the_leash(
            leash,
            next,
            -beta,
            -alpha,
            depth,
            ply + 1,
            work,
        );
        let score = -child.score;
        if score > best && score > alpha {
            if score < beta {
                lemma_exchanged_unstopped(
                    leash,
                    d,
                    list,
                    i + 1,
                    score,
                    beta,
                    score,
                    depth,
                    ply,
                    child.work.with_line(ply, list[i]),
                );
            }
        } else {
            lemma_exchanged_unstopped(
                leash,
                d,
                list,
                i + 1,
                alpha,
                beta,
                if score > best {
                    score
                } else {
                    best
                },
                depth,
                ply,
                child.work,
            );
        }
    }
}

/// The first move of the first iteration is searched to its end whatever the node
/// limit is, so that the answer is a move that was searched: a move that is worth
/// anything at all raises the window.
pub proof fn law_the_first_move_is_always_searched(
    limit: Option<u64>,
    d: Diagram,
    path: Seq<HistoryEntry>,
    session: Session,
)
    requires
        session.roots.len() > 0,
        session.work.lines.len() == 129,
        visit(
            no_leash(),
            d,
            path,
            session.roots[0],
            -32_001,
            32_001,
            1,
            0,
            Work { seldepth: 0, nodes: one_more(session.work.nodes), ..session.work },
        ).score > -32_001,
    ensures
        iterated(Leash { limit, cut: None }, d, path, 1, session).best is Some,
{
    let leash = Leash { limit, cut: None };
    let work = Work { seldepth: 0, ..session.work }.counted();
    assert(work == (Work { seldepth: 0, nodes: one_more(session.work.nodes), ..session.work }));
    assert(leash.relieved() == no_leash());
    let next = d.played(session.roots[0]);
    let longer = path.push(HistoryEntry::entry(next));
    law_a_visit_stops_where_the_leash_ends(
        no_leash(),
        next,
        longer,
        -32_001,
        32_001,
        0,
        1,
        work,
    );
    lemma_visited_line(
        no_leash(),
        next,
        longer,
        -32_001,
        32_001,
        0,
        1,
        work,
    );
    let child = visited(no_leash(), next, longer, -32_001, 32_001, 0, 1, work);
    assert(!child.stopped);
    lemma_rooted_looks(
        no_leash(),
        leash,
        d,
        path,
        session.roots,
        1,
        Some(child.score),
        1,
        child.work.with_line(0, session.roots[0]),
    );
}

/// The first iteration finds just what its moves are worth once the exchanges are
/// played out: the score that is told is the most that any move at the root comes
/// to, and the move that is answered comes to it.
pub proof fn law_the_first_iteration_is_right(d: Diagram, path: Seq<HistoryEntry>, session: Session)
    requires
        session.work.lines.len() == 129,
        iterated(no_leash(), d, path, 1, session).best is Some,
        forall|mv: Move|
            #![trigger session.roots.contains(mv)]
            session.roots.contains(mv) ==> -32_001 < worth_of_a_move(d, path, mv) < 32_001,
    ensures
        ({
            let iteration = iterated(no_leash(), d, path, 1, session);
            let best = advanced(1, session, iteration).best;
            &&& !iteration.stopped
            &&& session.roots.contains(best)
            &&& worth_of_a_move(d, path, best) == iteration.best->0
            &&& forall|mv: Move|
                #![trigger session.roots.contains(mv)]
                session.roots.contains(mv) ==> worth_of_a_move(d, path, mv) <= iteration.best->0
        }),
{
    let work = Work { seldepth: 0, ..session.work }.counted();
    assert(no_leash().relieved() == no_leash());
    lemma_first_iteration(d, path, session.roots, 0, None, work);
}

/// What a move at the root is worth if nothing is searched but exchanges: what the
/// rules say where it repeats a position for the fourth time, and otherwise what
/// the position that it leads to is worth to the other side, turned round.
pub open spec fn worth_of_a_move(d: Diagram, path: Seq<HistoryEntry>, mv: Move) -> int {
    let next = d.played(mv);
    match verdict_on(path.push(HistoryEntry::entry(next))) {
        Some(repetition) => -repetition.value(),
        None => -quiet_worth(next, 0, 1),
    }
}

proof fn lemma_first_iteration(
    d: Diagram,
    path: Seq<HistoryEntry>,
    list: Seq<Move>,
    i: int,
    best: Option<int>,
    work: Work,
)
    requires
        0 <= i,
        work.lines.len() == 129,
        best is Some ==> -32_001 < best->0 < 32_001 && work.lines[0].len() > 0 && list.contains(
            work.lines[0][0],
        ) && worth_of_a_move(d, path, work.lines[0][0]) == best->0,
        forall|mv: Move|
            #![trigger list.contains(mv)]
            list.contains(mv) ==> -32_001 < worth_of_a_move(d, path, mv) < 32_001,
        forall|k: int|
            0 <= k < i && k < list.len() ==> best is Some && worth_of_a_move(
                d,
                path,
                #[trigger] list[k],
            ) <= best->0,
    ensures
        ({
            let r = rooted(no_leash(), no_leash(), d, path, list, i, best, 1, work);
            &&& !r.stopped
            &&& r.best is Some ==> {
                &&& r.work.lines[0].len() > 0
                &&& list.contains(r.work.lines[0][0])
                &&& worth_of_a_move(d, path, r.work.lines[0][0]) == r.best->0
                &&& forall|mv: Move|
                    #![trigger list.contains(mv)]
                    list.contains(mv) ==> worth_of_a_move(d, path, mv) <= r.best->0
            }
        }),
    decreases list.len() - i,
{
    if i < list.len() {
        let mv = list[i];
        assert(list.contains(mv));
        let next = d.played(mv);
        let longer = path.push(HistoryEntry::entry(next));
        let alpha = if best is Some {
            best->0
        } else {
            -32_001
        };
        law_a_visit_stops_where_the_leash_ends(no_leash(), next, longer, alpha, 32_001, 0, 1, work);
        law_a_visit_turns_the_score_round(no_leash(), next, longer, alpha, 32_001, 0, 1, work);
        lemma_visited_line(
            no_leash(),
            next,
            longer,
            alpha,
            32_001,
            0,
            1,
            work,
        );
        let child = visited(no_leash(), next, longer, alpha, 32_001, 0, 1, work);
        assert(child.work.lines[0] == work.lines[0]);
        assert(child.score < 32_001 ==> worth_of_a_move(d, path, mv) <= child.score);
        assert(child.score > alpha ==> worth_of_a_move(d, path, mv) >= child.score);
        if child.score > alpha {
            let raised = child.work.with_line(0, mv);
            assert(raised.lines[0][0] == mv);
            lemma_first_iteration(d, path, list, i + 1, Some(child.score), raised);
        } else {
            assert(best is Some);
            lemma_first_iteration(d, path, list, i + 1, best, child.work);
        }
    } else if best is Some {
        assert forall|mv: Move| #[trigger] list.contains(mv) implies worth_of_a_move(d, path, mv)
            <= best->0 by {
            let k = choose|k: int| 0 <= k < list.len() && list[k] == mv;
            assert(worth_of_a_move(d, path, list[k]) <= best->0);
        }
    }
}

/// A search begins with nothing counted, no line, no killers and no history, and
/// with the slots of the table as the last one left them.
pub proof fn law_a_search_begins_afresh(memory: Memory, ply: int)
    requires
        memory.well_formed(),
        0 <= ply <= 128,
    ensures
        begun(memory).nodes == 0,
        begun(memory).seldepth == 0,
        begun(memory).lines[ply] == Seq::<Move>::empty(),
        begun(memory).killers[ply].newest is None,
        begun(memory).killers[ply].older is None,
        forall|i: int| 0 <= i < begun(memory).history.len() ==> #[trigger] begun(memory).history[i]
            == 0,
        begun(memory).memory.slots == memory.slots,
        begun(memory).memory.generation != memory.generation,
{
}

/// What a node notes of the move that it was left with: the line from it is the
/// move and then the line from below; a quiet move that refuted it is its newest
/// killer, the one before that the older, and has more credit; a capture is noted
/// as neither. Nothing is noted of another ply.
pub proof fn law_what_a_node_notes(work: Work, d: Diagram, ply: int, mv: Move, depth: int)
    requires
        work.well_formed(),
        0 <= ply < 128,
        0 < depth < 128,
    ensures
        work.with_line(ply, mv).lines[ply].len() == work.lines[ply + 1].len() + 1,
        work.with_line(ply, mv).lines[ply][0] == mv,
        work.with_line(ply, mv).lines[ply].skip(1) == work.lines[ply + 1],
        takes(d, mv) ==> work.with_killer(ply, d, mv) == work && work.with_credit(d, mv, depth)
            == work,
        !takes(d, mv) ==> {
            &&& work.with_killer(ply, d, mv).killers[ply].newest == Some(mv)
            &&& work.killers[ply].newest != Some(mv) ==> work.with_killer(
                ply,
                d,
                mv,
            ).killers[ply].older == work.killers[ply].newest
            &&& forall|k: int|
                0 <= k <= 128 && k != ply ==> #[trigger] work.with_killer(ply, d, mv).killers[k]
                    == work.killers[k]
        },
        work.with_killer(ply, d, mv).memory == work.memory,
        work.with_credit(d, mv, depth).memory == work.memory,
        work.with_credit(d, mv, depth).killers == work.killers,
{
    assert(work.with_line(ply, mv).lines[ply].skip(1) =~= work.lines[ply + 1]);
}

} // verus!
