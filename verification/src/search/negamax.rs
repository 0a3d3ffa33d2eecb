//! Iterative-deepening negamax with alpha-beta pruning, over a quiescence
//! search that plays captures out.

use core::ops::Neg;
use vstd::prelude::*;

use crate::board::{in_check, legal_moves, zobrist_key, Board};
use crate::diagram::Diagram;
use crate::search::budget::{
    allowed_ns, depth_for, law_a_depth_that_is_named_is_searched_to,
    law_the_period_a_share_and_the_increment_are_allowed, Budget, DEFAULT_DELIVERY_MARGIN_MS,
};
use crate::search::clock::{
    is_ahead, is_past, law_no_time_is_negative, less, sum_of, Clock, Duration, RealClock, MAX_NANOS,
};
use crate::search::eval::evaluate;
use crate::search::game::{copied, reached, Record};
use crate::search::info::{info_text, SearchInfo};
use crate::search::job::{BestMove, InfoSink, Limits, SearchJob, StopSource};
use crate::search::model::{
    advanced, begun, deepened, exchanged_out, iterated, law_depths_follow_one_another,
    law_every_line_told_is_legal, legal_line, next_poll, opened, quiesced, rooted, searched, settles, tried, unsearched, visited, Iteration, Leash, Outcome, Report, Session, Tried, Work,
    POLL_INTERVAL_NODES, QS_MAX_CHECK_PLIES,
};
use crate::search::moves::{
    all_playable, arranged, captures_first, exchanged, first_at, law_arranging_is_a_permutation,
    law_ordering_is_a_permutation, lemma_exchanged, lemma_same_moves, taking, Killers, MoveBuf,
    MAX_LEGAL_MOVES,
};
use crate::search::ordering::{capture_key, is_history, HistoryTable};
use crate::search::repetition::{verdict, HistoryEntry};
use crate::search::score::{Depth, Score, MAX_PLY};
use crate::search::soundness::is_a_mate;
use crate::search::tt::{
    is_power_floor, law_a_sound_table_stays_within_the_mates, wanted_entries, Bound, Hit, Memory, Table, DEFAULT_HASH_MB, ENTRIES_PER_MB,
    FALLBACK_ENTRIES,
};
use crate::shogi::{Color, Move};

verus! {

/// An alpha-beta window.
#[derive(Clone, Copy, Debug, PartialEq, Eq, Structural)]
pub struct Window {
    pub alpha: Score,
    pub beta: Score,
}

impl Window {
    /// Whether both edges are scores that a search can meet.
    pub open spec fn bounded(self) -> bool {
        &&& -32_001 <= self.alpha.0 <= 32_001
        &&& -32_001 <= self.beta.0 <= 32_001
    }

    /// The full window.
    pub fn open() -> (r: Window)
        ensures
            r.alpha.0 == -32_001,
            r.beta.0 == 32_001,
    {
        Window { alpha: Score::infinite().neg(), beta: Score::infinite() }
    }

    /// The window from the other side: its edges exchanged and negated.
    pub fn flipped(self) -> (r: Window)
        requires
            self.alpha.0 > i32::MIN,
            self.beta.0 > i32::MIN,
        ensures
            r.alpha.0 == -self.beta.0,
            r.beta.0 == -self.alpha.0,
    {
        Window { alpha: self.beta.neg(), beta: self.alpha.neg() }
    }
}

/// Whether what the table knows settles a node in the window: the score lies
/// past the edge that its bound speaks of.
pub fn cuts(hit: &Hit, window: &Window) -> (r: bool)
    ensures
        r == settles(
            Some(*hit),
            hit.depth as int,
            window.alpha.0 as int,
            window.beta.0 as int,
        ),
{
    match hit.bound {
        Bound::Lower => hit.score.0 >= window.beta.0,
        Bound::Upper => hit.score.0 <= window.alpha.0,
        Bound::Exact => hit.score.0 >= window.beta.0 || hit.score.0 <= window.alpha.0,
    }
}

/// What a search writes down as it goes from node to node.
pub struct Worksheet {
    nodes: u64,
    seldepth: usize,
    tt: Table,
    lines: Vec<Vec<Move>>,
    killers: Vec<Killers>,
    history: HistoryTable,
}

impl View for Worksheet {
    type V = Work;

    closed spec fn view(&self) -> Work {
        Work {
            nodes: self.nodes,
            seldepth: self.seldepth as int,
            memory: self.tt@,
            lines: self.lines@.map(|i: int, line: Vec<Move>| line@),
            killers: self.killers@,
            history: self.history@,
        }
    }
}

impl Worksheet {
    /// One node more.
    fn count(&mut self)
        ensures
            final(self)@ == old(self)@.counted(),
    {
        if self.nodes < u64::MAX {
            self.nodes = self.nodes + 1;
        }
    }

    /// No line from `ply` on.
    fn clear_line(&mut self, ply: usize)
        requires
            ply < old(self)@.lines.len(),
        ensures
            final(self)@ == old(self)@.cleared(ply as int),
    {
        self.lines.set(ply, Vec::new());
        assert(self@.lines =~= old(self)@.lines.update(ply as int, Seq::empty()));
    }

    /// A node at `ply` is entered.
    fn enter(&mut self, ply: usize)
        requires
            ply < old(self)@.lines.len(),
        ensures
            final(self)@ == old(self)@.entered(ply as int),
    {
        self.count();
        self.clear_line(ply);
        if self.seldepth < ply {
            self.seldepth = ply;
        }
    }

    /// The line from `ply` on is `mv` and what follows it.
    fn update_pv(&mut self, ply: usize, mv: Move)
        requires
            ply + 1 < old(self)@.lines.len(),
        ensures
            final(self)@ == old(self)@.with_line(ply as int, mv),
    {
        assert(self.lines.len() <= usize::MAX);
        let below: usize = ply + 1;
        let mut line: Vec<Move> = Vec::with_capacity(self.lines[below].len());
        line.push(mv);
        let ghost tail = self@.lines[ply + 1];
        let mut i: usize = 0;
        assert(tail == self.lines@[ply + 1]@);
        assert(line@ =~= seq![mv] + tail.take(0));
        while i < self.lines[below].len()
            invariant
                below == ply + 1,
                below < self.lines@.len(),
                tail == self.lines@[below as int]@,
                i <= tail.len(),
                line@ == seq![mv] + tail.take(i as int),
                self@ == old(self)@,
            decreases tail.len() - i,
        {
            line.push(self.lines[below][i]);
            assert(line@ =~= seq![mv] + tail.take(i as int + 1));
            i += 1;
        }
        assert(tail.take(tail.len() as int) =~= tail);
        self.lines.set(ply, line);
        assert(self@.lines =~= old(self)@.lines.update(ply as int, seq![mv] + tail));
    }

    /// `mv` refuted the node at `ply` that `board` is in. Only a move that takes
    /// nothing is remembered, and not twice in a row.
    fn remember_killer(&mut self, ply: usize, board: &Board, mv: Move)
        requires
            ply < old(self)@.killers.len(),
        ensures
            final(self)@ == old(self)@.with_killer(ply as int, board@, mv),
    {
        if capture_key(board, mv).is_some() {
            return;
        }
        let newest = self.killers[ply].newest;
        let repeated = match newest {
            Some(known) => known == mv,
            None => false,
        };
        if !repeated {
            self.killers.set(ply, Killers { newest: Some(mv), older: newest });
        }
    }

    /// `mv` refuted the node that `board` is in, which was searched to `depth`.
    /// Only a move that takes nothing is credited with it.
    fn credit(&mut self, board: &Board, mv: Move, depth: Depth)
        requires
            is_history(old(self)@.history),
            0 < depth < 128,
        ensures
            final(self)@ == old(self)@.with_credit(board@, mv, depth as int),
            is_history(final(self)@.history),
    {
        if capture_key(board, mv).is_none() {
            self.history.record(board, mv, depth);
        }
    }

    /// Stores what the node at `ply` that `board` is in has proved.
    fn store(
        &mut self,
        board: &Board,
        ply: usize,
        depth: Depth,
        bound: Bound,
        score: Score,
        best: Option<Move>,
    )
        requires
            old(self)@.memory.well_formed(),
            old(self)@.memory.sound(),
            ply <= MAX_PLY,
            -32_000 + ply <= score.0 <= 32_000 - ply,
        ensures
            final(self)@ == old(self)@.with_result(
                board@,
                ply as int,
                depth as int,
                bound,
                score.0 as int,
                best,
            ),
            final(self)@.memory.well_formed(),
            final(self)@.memory.sound(),
    {
        proof {
            law_a_sound_table_stays_within_the_mates(
                self@.memory,
                zobrist_key(board@),
                ply as int,
                depth as int,
                bound,
                score.0 as int,
                best,
            );
        }
        self.tt.store(board.key(), ply, depth, bound, score, best);
    }
}

/// The searcher. What has to survive between searches lives here.
pub struct NegamaxSearcher<C> {
    root_moves: Vec<Move>,
    buf: MoveBuf,
    sheet: Worksheet,
    path: Vec<HistoryEntry>,
    stopped: bool,
    clock: C,
    margin: Duration,
    told: Ghost<Seq<Seq<char>>>,
}

/// Whether a cut explains how a search that went from `before` to `after` nodes
/// ended: it lies outside of them and the search was not stopped by anything
/// but its node limit, or it is where the search was stopped.
pub open spec fn fits(
    cut: Option<u64>,
    limit: Option<u64>,
    before: u64,
    after: u64,
    stopped: bool,
) -> bool {
    let outside = cut is None || cut->0 <= before || cut->0 > after;
    if stopped {
        cut == Some(after) || (outside && limit is Some && after >= limit->0)
    } else {
        outside
    }
}

/// Whether a search that is stopped when it next asks has come from `before` to
/// that, or not yet.
pub open spec fn halted(before: u64, after: u64, stopped: bool) -> bool {
    if stopped {
        after == next_poll(before as int)
    } else {
        before <= after < next_poll(before as int)
    }
}

impl<C: Clock> NegamaxSearcher<C> {
    /// Whether the searcher is one that searches leave behind.
    pub closed spec fn well_formed(self) -> bool {
        self.sheet@.well_formed()
    }

    /// What is the same before and after a node was visited.
    spec fn keeps(self, other: NegamaxSearcher<C>) -> bool {
        &&& self.buf@ == other.buf@
        &&& self.path@ == other.path@
        &&& self.root_moves@ == other.root_moves@
        &&& self.margin == other.margin
        &&& self.told == other.told
        &&& self.clock == other.clock
        &&& self.sheet@.memory.slots.len() == other.sheet@.memory.slots.len()
    }

    /// How a visit that began as `self` ended, when it is not done.
    spec fn ended<S: StopSource>(self, other: NegamaxSearcher<C>, budget: Budget<'_, S>) -> bool {
        let before = self.sheet@.nodes;
        let after = other.sheet@.nodes;
        &&& before <= after
        &&& other.stopped ==> before < after && after % POLL_INTERVAL_NODES == 0
        &&& other.stopped && budget.steady(self.clock) ==> budget.spent(after)
        &&& budget.doomed(self.clock) ==> halted(before, after, other.stopped)
    }

    /// Whether the lines of the plies above `ply` are the same.
    spec fn lines_above(self, other: NegamaxSearcher<C>, ply: int) -> bool {
        forall|k: int| 0 <= k < ply ==> #[trigger] other.sheet@.lines[k] == self.sheet@.lines[k]
    }

    /// Whether the search is to stop, asked when the node count is due.
    fn poll<S: StopSource>(&self, budget: &Budget<'_, S>) -> (r: bool)
        ensures
            r ==> self.sheet@.nodes % POLL_INTERVAL_NODES == 0,
            self.sheet@.nodes % POLL_INTERVAL_NODES == 0 && budget.spent(self.sheet@.nodes) ==> r,
            r && budget.steady(self.clock) ==> budget.spent(self.sheet@.nodes),
            self.sheet@.nodes % POLL_INTERVAL_NODES == 0 && budget.doomed(self.clock) ==> r,
    {
        self.sheet.nodes % POLL_INTERVAL_NODES == 0 && budget.expired(self.sheet.nodes, &self.clock)
    }

    /// Plays the exchanges out, so that no position is judged in the middle of
    /// one.
    #[verifier::rlimit(40)]
    fn qsearch<S: StopSource>(
        &mut self,
        board: &mut Board,
        window: Window,
        depth: Depth,
        ply: usize,
        budget: &Budget<'_, S>,
    ) -> (r: Score)
        requires
            old(self).well_formed(),
            !old(self).stopped,
            ply <= MAX_PLY,
            -2 <= depth <= 0,
            window.bounded(),
        ensures
            final(self).well_formed(),
            final(self).keeps(*old(self)),
            old(self).ended(*final(self), *budget),
            old(self).lines_above(*final(self), ply as int),
            final(board)@ == old(board)@,
            -32_001 <= r.0 <= 32_001,
            !final(self).stopped ==> -32_000 + ply <= r.0 <= 32_000 - ply,
            forall|cut: Option<u64>|
                #[trigger] fits(
                    cut,
                    budget.node_limit,
                    old(self).sheet@.nodes,
                    final(self).sheet@.nodes,
                    final(self).stopped,
                ) ==> quiesced(
                    budget.leash(cut),
                    old(board)@,
                    window.alpha.0 as int,
                    window.beta.0 as int,
                    depth as int,
                    ply as int,
                    old(self).sheet@,
                ) == (Outcome {
                    score: r.0 as int,
                    work: final(self).sheet@,
                    stopped: final(self).stopped,
                }),
        decreases 130 - ply, 0int,
    {
        let ghost d = board@;
        let ghost n0 = self.sheet@.nodes;
        let ghost entered = self.sheet@.entered(ply as int);
        self.sheet.enter(ply);
        if self.poll(budget) {
            self.stopped = true;
            return Score::zero();
        }
        if ply >= MAX_PLY {
            return evaluate(board);
        }
        let checked = board.in_check();
        if checked && depth <= -QS_MAX_CHECK_PLIES {
            return evaluate(board);
        }
        let ghost given = self.buf@;
        let base: usize;
        let mut best: Score;
        let mut alpha: Score = window.alpha;
        let ghost moves: Seq<Move>;
        if checked {
            base = self.buf.generate(board);
            proof {
                moves = legal_moves(d);
            }
            if self.buf.len() == base {
                assert(self.buf@ =~= given);
                return Score::mated_in(ply);
            }
            best = Score::infinite().neg();
        } else {
            let stand_pat = evaluate(board);
            if stand_pat.0 >= window.beta.0 {
                return stand_pat;
            }
            if stand_pat.0 > alpha.0 {
                alpha = stand_pat;
            }
            best = stand_pat;
            base = self.buf.generate_captures(board);
            proof {
                moves = taking(d, legal_moves(d));
                lemma_taking_plays(d, legal_moves(d));
            }
        }
        assert(self.buf@.take(base as int) =~= given);
        assert(self.buf@.skip(base as int) =~= moves);
        let _ = self.buf.order_captures(base, board);
        let ghost list = captures_first(d, moves);
        proof {
            law_ordering_is_a_permutation(d, moves);
            lemma_same_moves(d, list, moves);
            assert(self.buf@.skip(base as int) =~= list);
        }
        let child_depth: Depth = if checked {
            depth - 1
        } else {
            depth
        };
        let ghost a0 = alpha.0 as int;
        let ghost best0 = best.0 as int;
        let ghost full = self.buf@;
        let mut i: usize = base;
        let mut done = false;
        while !done && i < self.buf.len()
            invariant
                self.well_formed(),
                self.buf@ == full,
                full == given + list,
                given == old(self).buf@,
                base == given.len(),
                base <= i <= full.len(),
                self.path@ == old(self).path@,
                self.root_moves@ == old(self).root_moves@,
                self.margin == old(self).margin,
                self.told == old(self).told,
                self.clock == old(self).clock,
                self.sheet@.memory.slots.len() == old(self).sheet@.memory.slots.len(),
                all_playable(d, list),
                board@ == d,
                ply < MAX_PLY,
                -2 <= child_depth <= 0,
                window.bounded(),
                -32_001 <= alpha.0 <= 32_001,
                -32_001 <= best.0 <= 32_000 - ply,
                checked ==> list.len() > 0,
                i > base || !checked || (done && !self.stopped) ==> -32_000 + ply <= best.0,
                n0 == old(self).sheet@.nodes,
                n0 <= entered.nodes <= self.sheet@.nodes,
                self.stopped ==> done && entered.nodes < self.sheet@.nodes && self.sheet@.nodes
                    % POLL_INTERVAL_NODES == 0,
                self.stopped && budget.steady(self.clock) ==> budget.spent(self.sheet@.nodes),
                budget.doomed(self.clock) ==> halted(n0, self.sheet@.nodes, self.stopped),
                old(self).lines_above(*self, ply as int),
                forall|cut: Option<u64>|
                    #[trigger] fits(
                        cut,
                        budget.node_limit,
                        n0,
                        self.sheet@.nodes,
                        self.stopped,
                    ) ==> exchanged_out(
                        budget.leash(cut),
                        d,
                        list,
                        0,
                        a0,
                        window.beta.0 as int,
                        best0,
                        child_depth as int,
                        ply as int,
                        entered,
                    ) == (if done {
                        Outcome {
                            score: best.0 as int,
                            work: self.sheet@,
                            stopped: self.stopped,
                        }
                    } else {
                        exchanged_out(
                            budget.leash(cut),
                            d,
                            list,
                            i - base,
                            alpha.0 as int,
                            window.beta.0 as int,
                            best.0 as int,
                            child_depth as int,
                            ply as int,
                            self.sheet@,
                        )
                    }),
            decreases
                    (if done {
                        0
                    } else {
                        full.len() - i
                    }),
        {
            let ghost before = *self;
            let mv = self.buf.get(i);
            assert(mv == list[i - base]);
            let undo = board.do_move(mv);
            let narrowed = Window { alpha, beta: window.beta };
            let reply = self.qsearch(board, narrowed.flipped(), child_depth, ply + 1, budget);
            let score = reply.neg();
            board.undo_move(mv, undo);
            let ghost after = *self;
            let ghost (alpha1, best1) = (alpha.0 as int, best.0 as int);
            if self.stopped {
                done = true;
            } else if score.0 > best.0 {
                best = score;
                if score.0 > alpha.0 {
                    alpha = score;
                    self.sheet.update_pv(ply, mv);
                    if alpha.0 >= window.beta.0 {
                        done = true;
                    }
                }
            }
            if !done {
                i += 1;
            }
            proof {
                assert forall|cut: Option<u64>|
                    #[trigger] fits(cut, budget.node_limit, n0, self.sheet@.nodes, self.stopped) implies
                    exchanged_out(
                    budget.leash(cut),
                    d,
                    list,
                    0,
                    a0,
                    window.beta.0 as int,
                    best0,
                    child_depth as int,
                    ply as int,
                    entered,
                ) == (if done {
                    Outcome { score: best.0 as int, work: self.sheet@, stopped: self.stopped }
                } else {
                    exchanged_out(
                        budget.leash(cut),
                        d,
                        list,
                        i - base,
                        alpha.0 as int,
                        window.beta.0 as int,
                        best.0 as int,
                        child_depth as int,
                        ply as int,
                        self.sheet@,
                    )
                }) by {
                    assert(fits(cut, budget.node_limit, n0, before.sheet@.nodes, false));
                    assert(fits(
                        cut,
                        budget.node_limit,
                        before.sheet@.nodes,
                        after.sheet@.nodes,
                        after.stopped,
                    ));
                }
            }
        }
        self.buf.truncate(base);
        assert(self.buf@ =~= given);
        best
    }

    /// A node that a move has led to, from the side that made the move. A
    /// position met for the fourth time is worth what the rules say of it, and
    /// has no line.
    fn child<S: StopSource>(
        &mut self,
        board: &mut Board,
        window: Window,
        depth: Depth,
        ply: usize,
        budget: &Budget<'_, S>,
    ) -> (r: Score)
        requires
            old(self).well_formed(),
            !old(self).stopped,
            ply <= MAX_PLY,
            depth <= 127,
            window.bounded(),
        ensures
            final(self).well_formed(),
            final(self).keeps(*old(self)),
            old(self).ended(*final(self), *budget),
            old(self).lines_above(*final(self), ply as int),
            final(board)@ == old(board)@,
            -32_001 <= r.0 <= 32_001,
            !final(self).stopped ==> -32_000 + ply <= r.0 <= 32_000 - ply,
            forall|cut: Option<u64>|
                #[trigger] fits(
                    cut,
                    budget.node_limit,
                    old(self).sheet@.nodes,
                    final(self).sheet@.nodes,
                    final(self).stopped,
                ) ==> visited(
                    budget.leash(cut),
                    old(board)@,
                    old(self).path@,
                    window.alpha.0 as int,
                    window.beta.0 as int,
                    depth as int,
                    ply as int,
                    old(self).sheet@,
                ) == (Outcome {
                    score: r.0 as int,
                    work: final(self).sheet@,
                    stopped: final(self).stopped,
                }),
        decreases 130 - ply, 1int,
    {
        if let Some(repetition) = verdict(&self.path) {
            self.sheet.clear_line(ply);
            return repetition.score().neg();
        }
        let reply = if depth > 0 && ply < MAX_PLY {
            self.negamax(board, window.flipped(), depth, ply, budget)
        } else {
            self.qsearch(board, window.flipped(), 0, ply, budget)
        };
        reply.neg()
    }

    /// A node that is searched `depth` plies deep.
    #[verifier::rlimit(60)]
    fn negamax<S: StopSource>(
        &mut self,
        board: &mut Board,
        window: Window,
        depth: Depth,
        ply: usize,
        budget: &Budget<'_, S>,
    ) -> (r: Score)
        requires
            old(self).well_formed(),
            !old(self).stopped,
            ply < MAX_PLY,
            0 < depth <= 127,
            window.bounded(),
        ensures
            final(self).well_formed(),
            final(self).keeps(*old(self)),
            old(self).ended(*final(self), *budget),
            old(self).lines_above(*final(self), ply as int),
            final(board)@ == old(board)@,
            -32_001 <= r.0 <= 32_001,
            !final(self).stopped ==> -32_000 + ply <= r.0 <= 32_000 - ply,
            forall|cut: Option<u64>|
                #[trigger] fits(
                    cut,
                    budget.node_limit,
                    old(self).sheet@.nodes,
                    final(self).sheet@.nodes,
                    final(self).stopped,
                ) ==> searched(
                    budget.leash(cut),
                    old(board)@,
                    old(self).path@,
                    window.alpha.0 as int,
                    window.beta.0 as int,
                    depth as int,
                    ply as int,
                    old(self).sheet@,
                ) == (Outcome {
                    score: r.0 as int,
                    work: final(self).sheet@,
                    stopped: final(self).stopped,
                }),
        decreases 130 - ply, 0int,
    {
        let ghost d = board@;
        let ghost n0 = self.sheet@.nodes;
        let ghost entered = self.sheet@.entered(ply as int);
        self.sheet.enter(ply);
        if self.poll(budget) {
            self.stopped = true;
            return Score::zero();
        }
        let hit = self.sheet.tt.probe(board.key(), ply);
        proof {
            law_a_sound_table_stays_within_the_mates(
                self.sheet@.memory,
                zobrist_key(d),
                ply as int,
                depth as int,
                Bound::Exact,
                0,
                None,
            );
        }
        let mut known: Option<Move> = None;
        if let Some(hit) = hit {
            if hit.depth >= depth && cuts(&hit, &window) {
                return hit.score;
            }
            known = hit.mv;
        }
        let ghost given = self.buf@;
        let base: usize = self.buf.generate(board);
        if self.buf.len() == base {
            assert(self.buf@ =~= given);
            assert(legal_moves(d).len() == 0);
            return Score::mated_in(ply);
        }
        assert(self.buf@.take(base as int) =~= given);
        assert(self.buf@.skip(base as int) =~= legal_moves(d));
        let killers = self.sheet.killers[ply];
        self.buf.arrange(base, board, known, killers, &self.sheet.history);
        let ghost list = arranged(d, legal_moves(d), known, killers, entered.history);
        proof {
            law_arranging_is_a_permutation(d, legal_moves(d), known, killers, entered.history);
            lemma_same_moves(d, list, legal_moves(d));
            assert(self.buf@.skip(base as int) =~= list);
        }
        let ghost full = self.buf@;
        let mut alpha: Score = window.alpha;
        let mut best: Score = Score::infinite().neg();
        let mut best_move: Option<Move> = None;
        let mut i: usize = base;
        let mut done = false;
        while !done && i < self.buf.len()
            invariant
                self.well_formed(),
                self.buf@ == full,
                full == given + list,
                given == old(self).buf@,
                base == given.len(),
                base <= i <= full.len(),
                self.path@ == old(self).path@,
                self.root_moves@ == old(self).root_moves@,
                self.margin == old(self).margin,
                self.told == old(self).told,
                self.clock == old(self).clock,
                self.sheet@.memory.slots.len() == old(self).sheet@.memory.slots.len(),
                all_playable(d, list),
                board@ == d,
                ply < MAX_PLY,
                0 < depth <= 127,
                window.bounded(),
                -32_001 <= alpha.0 <= 32_001,
                -32_001 <= best.0 <= 32_000 - ply,
                list.len() > 0,
                i > base || (done && !self.stopped) ==> -32_000 + ply <= best.0,
                n0 == old(self).sheet@.nodes,
                n0 <= entered.nodes <= self.sheet@.nodes,
                self.stopped ==> done && entered.nodes < self.sheet@.nodes && self.sheet@.nodes
                    % POLL_INTERVAL_NODES == 0,
                self.stopped && budget.steady(self.clock) ==> budget.spent(self.sheet@.nodes),
                budget.doomed(self.clock) ==> halted(n0, self.sheet@.nodes, self.stopped),
                old(self).lines_above(*self, ply as int),
                forall|cut: Option<u64>|
                    #[trigger] fits(
                        cut,
                        budget.node_limit,
                        n0,
                        self.sheet@.nodes,
                        self.stopped,
                    ) ==> tried(
                        budget.leash(cut),
                        d,
                        old(self).path@,
                        list,
                        0,
                        window.alpha.0 as int,
                        window.beta.0 as int,
                        -32_001,
                        None,
                        depth as int,
                        ply as int,
                        entered,
                    ) == (if done {
                        Tried {
                            best: best.0 as int,
                            alpha: alpha.0 as int,
                            best_move,
                            work: self.sheet@,
                            stopped: self.stopped,
                        }
                    } else {
                        tried(
                            budget.leash(cut),
                            d,
                            old(self).path@,
                            list,
                            i - base,
                            alpha.0 as int,
                            window.beta.0 as int,
                            best.0 as int,
                            best_move,
                            depth as int,
                            ply as int,
                            self.sheet@,
                        )
                    }),
            decreases
                    (if done {
                        0
                    } else {
                        full.len() - i
                    }),
        {
            let ghost before = *self;
            let mv = self.buf.get(i);
            assert(mv == list[i - base]);
            let undo = board.do_move(mv);
            self.path.push(HistoryEntry::of(board));
            let narrowed = Window { alpha, beta: window.beta };
            let score = self.child(board, narrowed, depth - 1, ply + 1, budget);
            let _ = self.path.pop();
            assert(self.path@ =~= old(self).path@);
            board.undo_move(mv, undo);
            let ghost after = *self;
            if self.stopped {
                done = true;
            } else if score.0 > best.0 {
                best = score;
                if score.0 > alpha.0 {
                    alpha = score;
                    best_move = Some(mv);
                    self.sheet.update_pv(ply, mv);
                    if alpha.0 >= window.beta.0 {
                        self.sheet.remember_killer(ply, board, mv);
                        self.sheet.credit(board, mv, depth);
                        done = true;
                    }
                }
            }
            if !done {
                i += 1;
            }
            proof {
                assert forall|cut: Option<u64>|
                    #[trigger] fits(cut, budget.node_limit, n0, self.sheet@.nodes, self.stopped) implies
                    tried(
                    budget.leash(cut),
                    d,
                    old(self).path@,
                    list,
                    0,
                    window.alpha.0 as int,
                    window.beta.0 as int,
                    -32_001,
                    None,
                    depth as int,
                    ply as int,
                    entered,
                ) == (if done {
                    Tried {
                        best: best.0 as int,
                        alpha: alpha.0 as int,
                        best_move,
                        work: self.sheet@,
                        stopped: self.stopped,
                    }
                } else {
                    tried(
                        budget.leash(cut),
                        d,
                        old(self).path@,
                        list,
                        i - base,
                        alpha.0 as int,
                        window.beta.0 as int,
                        best.0 as int,
                        best_move,
                        depth as int,
                        ply as int,
                        self.sheet@,
                    )
                }) by {
                    assert(fits(cut, budget.node_limit, n0, before.sheet@.nodes, false));
                    assert(fits(
                        cut,
                        budget.node_limit,
                        before.sheet@.nodes,
                        after.sheet@.nodes,
                        after.stopped,
                    ));
                }
            }
        }
        self.buf.truncate(base);
        assert(self.buf@ =~= given);
        if !self.stopped {
            let bound = if best.0 >= window.beta.0 {
                Bound::Lower
            } else if alpha.0 > window.alpha.0 {
                Bound::Exact
            } else {
                Bound::Upper
            };
            self.sheet.store(board, ply, depth, bound, best, best_move);
        }
        best
    }
}

/// Whether a cut explains how an iteration that went from `before` to `after`
/// nodes ended. The node limit explains a stop only where nothing else can have
/// caused it: the first move of the first iteration is not held to it.
pub open spec fn fits_iteration(
    cut: Option<u64>,
    limit: Option<u64>,
    steady: bool,
    before: u64,
    after: u64,
    stopped: bool,
) -> bool {
    let outside = cut is None || cut->0 <= before || cut->0 > after;
    if stopped {
        cut == Some(after) || (outside && steady && limit is Some && after >= limit->0)
    } else {
        outside
    }
}

impl<C: Clock> NegamaxSearcher<C> {
    /// One iteration: every move at the root, searched in the open window.
    /// `None` if no move was searched to its end and raised the window;
    /// otherwise the line from the root begins with a move of the root. The
    /// first move is searched against `first_move`, where there is one.
    #[verifier::rlimit(60)]
    fn negamax_root<S: StopSource>(
        &mut self,
        board: &mut Board,
        depth: Depth,
        budget: &Budget<'_, S>,
        first_move: Option<&Budget<'_, S>>,
    ) -> (r: Option<Score>)
        requires
            old(self).well_formed(),
            !old(self).stopped,
            0 < depth <= 127,
            all_playable(old(board)@, old(self).root_moves@),
            first_move matches Some(first) ==> first.deadline is None && first.node_limit is None
                && *first.signals == *budget.signals,
        ensures
            final(self).well_formed(),
            final(self).keeps(*old(self)),
            final(board)@ == old(board)@,
            old(self).sheet@.nodes <= final(self).sheet@.nodes,
            final(self).stopped ==> old(self).sheet@.nodes < final(self).sheet@.nodes,
            final(self).stopped && budget.steady(old(self).clock) ==> budget.spent(
                final(self).sheet@.nodes,
            ),
            budget.doomed(old(self).clock) && (first_move is None || budget.signals.raised())
                ==> halted(
                old(self).sheet@.counted().nodes,
                final(self).sheet@.nodes,
                final(self).stopped,
            ),
            budget.is_late(old(self).clock) && budget.signals.quiet() && first_move is Some
                && old(self).root_moves@.len() > 0 ==> halted(
                opened(
                    old(board)@,
                    old(self).path@,
                    old(self).root_moves@[0],
                    depth as int,
                    old(self).sheet@.counted(),
                ).work.nodes,
                final(self).sheet@.nodes,
                final(self).stopped,
            ),
            r is None && old(self).root_moves@.len() > 0 ==> final(self).stopped,
            r matches Some(score) ==> {
                &&& -32_000 <= score.0 <= 32_000
                &&& final(self).sheet@.lines[0].len() > 0
                &&& old(self).root_moves@.contains(final(self).sheet@.lines[0][0])
            },
            forall|cut: Option<u64>|
                #[trigger] fits_iteration(
                    cut,
                    budget.node_limit,
                    budget.steady(old(self).clock),
                    old(self).sheet@.nodes,
                    final(self).sheet@.nodes,
                    final(self).stopped,
                ) ==> rooted(
                    if first_move is Some {
                        budget.leash(cut).relieved()
                    } else {
                        budget.leash(cut)
                    },
                    budget.leash(cut),
                    old(board)@,
                    old(self).path@,
                    old(self).root_moves@,
                    0,
                    None,
                    depth as int,
                    old(self).sheet@.counted(),
                ) == (Iteration {
                    best: match r {
                        Some(score) => Some(score.0 as int),
                        None => None,
                    },
                    work: final(self).sheet@,
                    stopped: final(self).stopped,
                }),
    {
        let ghost d = board@;
        let ghost n0 = self.sheet@.nodes;
        let ghost list = self.root_moves@;
        let ghost counted = self.sheet@.counted();
        self.sheet.count();
        let mut best: Option<Score> = None;
        let mut i: usize = 0;
        while !self.stopped && i < self.root_moves.len()
            invariant
                self.well_formed(),
                self.keeps(*old(self)),
                list == old(self).root_moves@,
                i <= list.len(),
                all_playable(d, list),
                board@ == d,
                0 < depth <= 127,
                first_move matches Some(first) ==> first.deadline is None && first.node_limit is None
                    && *first.signals == *budget.signals,
                n0 <= counted.nodes <= self.sheet@.nodes,
                self.stopped ==> n0 < self.sheet@.nodes,
                self.stopped && budget.steady(self.clock) ==> budget.spent(self.sheet@.nodes),
                n0 == old(self).sheet@.nodes,
                budget.doomed(self.clock) && (first_move is None || budget.signals.raised())
                    ==> halted(counted.nodes, self.sheet@.nodes, self.stopped),
                i == 0 ==> self.sheet@ == counted && !self.stopped && best is None,
                i > 0 && best is None ==> self.stopped,
                budget.is_late(self.clock) && budget.signals.quiet() && first_move is Some && i > 0
                    ==> halted(
                    opened(d, old(self).path@, list[0], depth as int, counted).work.nodes,
                    self.sheet@.nodes,
                    self.stopped,
                ),
                best matches Some(score) ==> {
                    &&& -32_000 <= score.0 <= 32_000
                    &&& self.sheet@.lines[0].len() > 0
                    &&& list.contains(self.sheet@.lines[0][0])
                },
                forall|cut: Option<u64>|
                    #[trigger] fits_iteration(
                        cut,
                        budget.node_limit,
                        budget.steady(self.clock),
                        n0,
                        self.sheet@.nodes,
                        self.stopped,
                    ) ==> rooted(
                        if first_move is Some {
                            budget.leash(cut).relieved()
                        } else {
                            budget.leash(cut)
                        },
                        budget.leash(cut),
                        d,
                        old(self).path@,
                        list,
                        0,
                        None,
                        depth as int,
                        counted,
                    ) == (if self.stopped {
                        Iteration {
                            best: match best {
                                Some(score) => Some(score.0 as int),
                                None => None,
                            },
                            work: self.sheet@,
                            stopped: true,
                        }
                    } else {
                        rooted(
                            if first_move is Some {
                                budget.leash(cut).relieved()
                            } else {
                                budget.leash(cut)
                            },
                            budget.leash(cut),
                            d,
                            old(self).path@,
                            list,
                            i as int,
                            match best {
                                Some(score) => Some(score.0 as int),
                                None => None,
                            },
                            depth as int,
                            self.sheet@,
                        )
                    }),
            decreases list.len() - i,
        {
            let ghost before = *self;
            let used: &Budget<'_, S> = if i == 0 {
                match first_move {
                    Some(first) => first,
                    None => budget,
                }
            } else {
                budget
            };
            let mv = self.root_moves[i];
            let alpha = match best {
                Some(score) => score,
                None => Score::infinite().neg(),
            };
            let window = Window { alpha, beta: Score::infinite() };
            let undo = board.do_move(mv);
            self.path.push(HistoryEntry::of(board));
            let score = self.child(board, window, depth - 1, 1, used);
            let _ = self.path.pop();
            assert(self.path@ =~= old(self).path@);
            board.undo_move(mv, undo);
            let ghost after = *self;
            let ghost at = i as int;
            let ghost best0 = best;
            assert(before.sheet@.lines[0] == after.sheet@.lines[0]);
            if !self.stopped && score.0 > alpha.0 {
                best = Some(score);
                self.sheet.update_pv(0, mv);
                assert(self.sheet@.lines[0][0] == list[at]);
            }
            i += 1;
            proof {
                if at == 0 && first_move is Some && budget.signals.quiet() {
                    assert(used.steady(before.clock));
                    assert(!after.stopped);
                    assert(fits(
                        None,
                        used.node_limit,
                        before.sheet@.nodes,
                        after.sheet@.nodes,
                        after.stopped,
                    ));
                    assert(used.leash(None) == (Leash { limit: None, cut: None }));
                    assert(opened(d, old(self).path@, list[0], depth as int, counted).work
                        == after.sheet@);
                }
                assert forall|cut: Option<u64>|
                    #[trigger] fits_iteration(
                        cut,
                        budget.node_limit,
                        budget.steady(self.clock),
                        n0,
                        self.sheet@.nodes,
                        self.stopped,
                    ) implies rooted(
                    if first_move is Some {
                        budget.leash(cut).relieved()
                    } else {
                        budget.leash(cut)
                    },
                    budget.leash(cut),
                    d,
                    old(self).path@,
                    list,
                    0,
                    None,
                    depth as int,
                    counted,
                ) == (if self.stopped {
                    Iteration {
                        best: match best {
                            Some(score) => Some(score.0 as int),
                            None => None,
                        },
                        work: self.sheet@,
                        stopped: true,
                    }
                } else {
                    rooted(
                        if first_move is Some {
                            budget.leash(cut).relieved()
                        } else {
                            budget.leash(cut)
                        },
                        budget.leash(cut),
                        d,
                        old(self).path@,
                        list,
                        i as int,
                        match best {
                            Some(score) => Some(score.0 as int),
                            None => None,
                        },
                        depth as int,
                        self.sheet@,
                    )
                }) by {
                    assert(fits_iteration(
                        cut,
                        budget.node_limit,
                        budget.steady(self.clock),
                        n0,
                        before.sheet@.nodes,
                        false,
                    ));
                    assert(used.steady(self.clock) == (budget.steady(self.clock) || (at == 0
                        && first_move is Some && used.signals.quiet())));
                    assert(fits(
                        cut,
                        used.node_limit,
                        before.sheet@.nodes,
                        after.sheet@.nodes,
                        after.stopped,
                    ));
                }
            }
        }
        best
    }
}

/// Whether a cut and a last iteration explain how a search that has counted
/// `nodes` and is about to start the iteration `depth` has come so far.
pub open spec fn fits_so_far(cut: Option<u64>, last: Option<int>, nodes: u64, depth: int) -> bool {
    &&& cut is None || cut->0 > nodes
    &&& last is None || last->0 >= depth
}

/// The iterations of a `go` in a game, from the first to the deepest that it
/// asks for.
pub open spec fn played_out(
    leash: Leash,
    last: Option<int>,
    record: Record,
    limits: Limits,
    margin: int,
    memory: Memory,
) -> Session {
    let d = record.now().diagram;
    deepened(
        leash,
        last,
        d,
        record.history(),
        1,
        depth_for(limits, is_timed(limits, d.side, margin)),
        unsearched(d, memory),
    )
}

/// Whether a `go` is held to a clock.
pub open spec fn is_timed(limits: Limits, mover: Color, margin: int) -> bool {
    !limits.infinite && allowed_ns(limits, mover, margin) is Some
}

/// When the time of a `go` that is held to a clock and began at `started` is up,
/// in nanoseconds.
pub open spec fn due_ns(limits: Limits, mover: Color, margin: int, started: int) -> int {
    sum_of(started, allowed_ns(limits, mover, margin)->0)
}

/// Whether the time of a `go` that began at `started` is up at every reading of
/// the clock.
pub open spec fn is_overdue<C: Clock>(
    clock: C,
    limits: Limits,
    mover: Color,
    margin: int,
    started: int,
) -> bool {
    is_timed(limits, mover, margin) && is_past(clock, due_ns(limits, mover, margin, started))
}

/// Whether the time of a `go` that began at `started` is up at no reading of the
/// clock, if it is held to one.
pub open spec fn is_unhurried<C: Clock>(
    clock: C,
    limits: Limits,
    mover: Color,
    margin: int,
    started: int,
) -> bool {
    is_timed(limits, mover, margin) ==> is_ahead(clock, due_ns(limits, mover, margin, started))
}

/// The node count at which a search in a game asks first after its first move at
/// the root, which no limit holds back; `None` if no count reaches it.
pub open spec fn poll_behind_first_move(record: Record, memory: Memory) -> Option<u64> {
    let d = record.now().diagram;
    let first = opened(d, record.history(), legal_moves(d)[0], 1, begun(memory).counted());
    let due = next_poll(first.work.nodes as int);
    if due <= u64::MAX {
        Some(due as u64)
    } else {
        None
    }
}

/// Whether the lines are those that tell of the reports, each at a reading of the
/// clock after a start at `started`.
pub open spec fn tells<C: Clock>(
    clock: C,
    started: int,
    lines: Seq<Seq<char>>,
    reports: Seq<Report>,
) -> bool {
    &&& lines.len() == reports.len()
    &&& forall|i: int|
        0 <= i < lines.len() ==> told_at_a_reading(clock, started, #[trigger] lines[i], reports[i])
}

/// Whether the line tells of the report, with the time from `started` to a
/// reading of the clock.
pub open spec fn told_at_a_reading<C: Clock>(
    clock: C,
    started: int,
    line: Seq<char>,
    report: Report,
) -> bool {
    exists|now: Duration| #[trigger]
        clock.reads(now) && line == info_text(report, less(now.ns(), started))
}

/// Whether every score that is told is one that a game can come to: none lies
/// past the mates.
pub open spec fn within_the_mates(reports: Seq<Report>) -> bool {
    forall|i: int|
        0 <= i < reports.len() ==> -32_000 <= (#[trigger] reports[i]).score <= 32_000
}

/// Whether a search that nobody ended has run its course: it went to the deepest
/// iteration that was asked for and told of every one, or it found a mate, or it
/// used its node limit up.
pub open spec fn ran_its_course(session: Session, deepest: int, limit: Option<u64>) -> bool {
    ||| session.completed == deepest && session.reports.len() == deepest
    ||| session.reports.len() > 0 && is_a_mate(session.reports.last().score)
    ||| limit is Some && session.work.nodes >= limit->0
}

/// Whether an answer, what is known and what was told are those of a search
/// that began at `started` and that the clock or a signal ended at `cut` or after
/// the iteration `last`.
pub open spec fn explains<C: Clock>(
    cut: Option<u64>,
    last: Option<int>,
    clock: C,
    started: int,
    record: Record,
    limits: Limits,
    margin: int,
    memory: Memory,
    best: BestMove,
    work: Work,
    told: Seq<Seq<char>>,
) -> bool {
    let session = played_out(
        Leash { limit: limits.nodes, cut },
        last,
        record,
        limits,
        margin,
        memory,
    );
    &&& best == (BestMove::Play {
        mv: session.best,
        ponder: None,
        completed_depth: session.completed as i32,
    })
    &&& work == session.work
    &&& tells(clock, started, told, session.reports)
    &&& within_the_mates(session.reports)
}

/// What a search answers, knows and tells but for the time is fixed by the game,
/// the limits, the margin, the table and where the search was ended: two searches
/// that agree in these do not differ.
pub proof fn law_a_search_is_determined<C: Clock>(
    cut: Option<u64>,
    last: Option<int>,
    clock: C,
    started: (int, int),
    record: Record,
    limits: Limits,
    margin: int,
    memory: Memory,
    a: (BestMove, Work, Seq<Seq<char>>),
    b: (BestMove, Work, Seq<Seq<char>>),
)
    requires
        explains(cut, last, clock, started.0, record, limits, margin, memory, a.0, a.1, a.2),
        explains(cut, last, clock, started.1, record, limits, margin, memory, b.0, b.1, b.2),
    ensures
        a.0 == b.0,
        a.1 == b.1,
        a.2.len() == b.2.len(),
{
}

impl NegamaxSearcher<RealClock> {
    /// A searcher with a table of the default size.
    pub fn new() -> (r: NegamaxSearcher<RealClock>)
        ensures
            r.well_formed(),
            r.work().memory.blank(),
            is_power_floor(
                wanted_entries(DEFAULT_HASH_MB as int),
                r.work().memory.slots.len() as int,
            ) || r.work().memory.slots.len() == FALLBACK_ENTRIES,
            r.margin_ns() == 30_000_000,
    {
        NegamaxSearcher::with_hash_mb(DEFAULT_HASH_MB)
    }

    /// A searcher with a table of `mb` MiB.
    pub fn with_hash_mb(mb: usize) -> (r: NegamaxSearcher<RealClock>)
        ensures
            r.well_formed(),
            r.work().memory.blank(),
            is_power_floor(wanted_entries(mb as int), r.work().memory.slots.len() as int)
                || r.work().memory.slots.len() == FALLBACK_ENTRIES,
            r.margin_ns() == 30_000_000,
    {
        NegamaxSearcher::with_clock(mb, RealClock::new())
    }
}

impl Default for NegamaxSearcher<RealClock> {
    fn default() -> (r: NegamaxSearcher<RealClock>)
        ensures
            r.well_formed(),
            r.work().memory.blank(),
            is_power_floor(
                wanted_entries(DEFAULT_HASH_MB as int),
                r.work().memory.slots.len() as int,
            ) || r.work().memory.slots.len() == FALLBACK_ENTRIES,
            r.margin_ns() == 30_000_000,
    {
        NegamaxSearcher::new()
    }
}

impl<C: Clock> NegamaxSearcher<C> {
    /// What the searcher knows.
    pub closed spec fn work(self) -> Work {
        self.sheet@
    }

    /// The lines that the last search told, in order.
    pub closed spec fn told(self) -> Seq<Seq<char>> {
        self.told@
    }

    /// What is kept back from what the mover has, in nanoseconds.
    pub closed spec fn margin_ns(self) -> int {
        self.margin.ns()
    }

    /// A searcher with a table of `mb` MiB, timed by `clock`.
    pub fn with_clock(mb: usize, clock: C) -> (r: NegamaxSearcher<C>)
        ensures
            r.well_formed(),
            r.work().memory.blank(),
            is_power_floor(wanted_entries(mb as int), r.work().memory.slots.len() as int)
                || r.work().memory.slots.len() == FALLBACK_ENTRIES,
            r.margin_ns() == 30_000_000,
            r.timer() == clock,
    {
        let sheet = Worksheet {
            nodes: 0,
            seldepth: 0,
            tt: Table::new(mb),
            lines: no_lines(),
            killers: no_killers(),
            history: HistoryTable::new(),
        };
        NegamaxSearcher {
            root_moves: Vec::with_capacity(MAX_LEGAL_MOVES),
            buf: MoveBuf::new(),
            sheet,
            path: Vec::with_capacity(MAX_PLY),
            stopped: false,
            clock,
            margin: Duration::from_millis(DEFAULT_DELIVERY_MARGIN_MS),
            told: Ghost(Seq::empty()),
        }
    }

    /// The nodes that the last search visited.
    pub fn nodes(&self) -> (r: u64)
        ensures
            r == self.work().nodes,
    {
        self.sheet.nodes
    }

    /// What searches are timed by.
    pub closed spec fn timer(self) -> C {
        self.clock
    }

    /// The clock that searches are timed by.
    pub fn clock(&self) -> (r: &C)
        ensures
            *r == self.timer(),
    {
        &self.clock
    }

    /// Tells `out` a line.
    fn tell<O: InfoSink>(&mut self, out: &mut O, line: &str)
        ensures
            old(out).keeps() ==> {
                &&& final(out).keeps()
                &&& final(out).kept() == old(out).kept().push(line@)
            },
            final(self).clock == old(self).clock,
            final(self).told@ == old(self).told@.push(line@),
            final(self).sheet == old(self).sheet,
            final(self).buf == old(self).buf,
            final(self).path == old(self).path,
            final(self).root_moves == old(self).root_moves,
            final(self).stopped == old(self).stopped,
            final(self).margin == old(self).margin,
    {
        out.info(line);
        proof {
            self.told@ = self.told@.push(line@);
        }
    }

    /// Whether a search of `job` that began as `self` at `started` and ended as
    /// `after` may answer `best`. A side without a legal move resigns. What is
    /// answered, known and told is that of one search ended somewhere. It is ended
    /// nowhere where no signal stops it and its time is up at no reading of the
    /// clock; when it first asks, where the signals never cease to stop it; and
    /// where its time is up at every reading, with its first iteration and, if no
    /// signal stops it, when it first asks after its first move at the root. The
    /// answer stands first among the moves at the root.
    pub open spec fn concludes<S: StopSource>(
        self,
        after: NegamaxSearcher<C>,
        job: SearchJob<S>,
        started: int,
        best: BestMove,
    ) -> bool {
        let d = job.game@.now().diagram;
        let margin = self.margin_ns();
        &&& best is Resign <==> legal_moves(d).len() == 0
        &&& best is Resign ==> after.told().len() == 0 && after.work() == begun(
            self.work().memory,
        )
        &&& best matches BestMove::Play { mv, .. } ==> {
            &&& legal_moves(d).contains(mv)
            &&& exists|cut: Option<u64>, last: Option<int>| #[trigger]
                self.is_explained(after, job, started, best, cut, last)
            &&& job.signals.quiet() && is_unhurried(
                self.timer(),
                job.limits,
                d.side,
                margin,
                started,
            ) ==> {
                &&& self.is_explained(after, job, started, best, None, None)
                &&& ran_its_course(
                    played_out(
                        Leash { limit: job.limits.nodes, cut: None },
                        None,
                        job.game@,
                        job.limits,
                        margin,
                        self.work().memory,
                    ),
                    depth_for(job.limits, is_timed(job.limits, d.side, margin)),
                    job.limits.nodes,
                )
            }
            &&& job.signals.raised() ==> self.is_explained(
                after,
                job,
                started,
                best,
                Some(POLL_INTERVAL_NODES),
                Some(1),
            )
            &&& is_overdue(self.timer(), job.limits, d.side, margin, started) ==> {
                &&& exists|cut: Option<u64>| #[trigger]
                    self.is_explained(after, job, started, best, cut, Some(1))
                &&& job.signals.quiet() ==> self.is_explained(
                    after,
                    job,
                    started,
                    best,
                    poll_behind_first_move(job.game@, self.work().memory),
                    Some(1),
                )
            }
            &&& after.roots().len() > 0 && after.roots()[0] == mv
        }
    }

    /// Whether a search of `job` that began as `self` at `started` and was ended
    /// at `cut` or after the iteration `last` ends as `after` with the answer
    /// `best`.
    pub open spec fn is_explained<S: StopSource>(
        self,
        after: NegamaxSearcher<C>,
        job: SearchJob<S>,
        started: int,
        best: BestMove,
        cut: Option<u64>,
        last: Option<int>,
    ) -> bool {
        explains(
            cut,
            last,
            self.timer(),
            started,
            job.game@,
            job.limits,
            self.margin_ns(),
            self.work().memory,
            best,
            after.work(),
            after.told(),
        )
    }

    /// Searches the position that the job's game has reached, and tells `out` of
    /// each iteration. The time that the search takes counts from the reading of
    /// the clock that it begins with.
    pub fn search<S: StopSource, O: InfoSink>(
        &mut self,
        job: &SearchJob<S>,
        out: &mut O,
    ) -> (r: BestMove)
        requires
            old(self).well_formed(),
            job.game.well_formed(),
        ensures
            final(self).well_formed(),
            final(self).margin_ns() == old(self).margin_ns(),
            final(self).timer() == old(self).timer(),
            final(self).work().memory.slots.len() == old(self).work().memory.slots.len(),
            old(out).keeps() ==> {
                &&& final(out).keeps()
                &&& final(out).kept() == old(out).kept() + final(self).told()
            },
            exists|started: Duration| #[trigger]
                old(self).timer().reads(started) && old(self).concludes(
                    *final(self),
                    *job,
                    started.ns(),
                    r,
                ),
            final(self).left_over() == 0,
    {
        let started = self.clock.now();
        let best = self.search_from(started, job, out);
        assert(old(self).timer().reads(started) && old(self).concludes(
            *self,
            *job,
            started.ns(),
            best,
        ));
        best
    }

    /// The search of a `go` that began at `started`. No move is left in the list
    /// that the plies share.
    #[verifier::rlimit(80)]
    pub fn search_from<S: StopSource, O: InfoSink>(
        &mut self,
        started: Duration,
        job: &SearchJob<S>,
        out: &mut O,
    ) -> (r: BestMove)
        requires
            old(self).well_formed(),
            job.game.well_formed(),
        ensures
            final(self).well_formed(),
            final(self).margin_ns() == old(self).margin_ns(),
            final(self).timer() == old(self).timer(),
            final(self).work().memory.slots.len() == old(self).work().memory.slots.len(),
            old(out).keeps() ==> {
                &&& final(out).keeps()
                &&& final(out).kept() == old(out).kept() + final(self).told()
            },
            old(self).concludes(*final(self), *job, started.ns(), r),
            final(self).left_over() == 0,
    {
        let budget = Budget::new(
            &job.limits,
            &job.signals,
            started,
            job.game.side_to_move(),
            self.margin,
        );
        let mut board = job.game.search_board();
        let ghost d = board@;
        let ghost memory = self.sheet@.memory;
        self.stopped = false;
        self.told = Ghost(Seq::empty());
        self.sheet.begin();
        self.buf.clear();
        self.path = copied(job.game.history());
        self.root_moves = board.legal_moves();
        if self.root_moves.len() == 0 {
            return BestMove::Resign;
        }
        let ghost path = self.path@;
        let ghost legal = self.root_moves@;
        let ghost start = unsearched(d, memory);
        let ghost behind = poll_behind_first_move(job.game@, memory);
        let mut best = self.root_moves[0];
        let relief = budget.without_limits();
        let mut completed_depth: Depth = 0;
        let mut depth: Depth = 1;
        let mut done = false;
        let ghost mut reports: Seq<Report> = Seq::empty();
        let ghost mut cut: Option<u64> = None;
        let ghost mut last: Option<int> = None;
        assert(self.sheet@ == start.work);
        while !done && depth <= budget.max_depth
            invariant
                self.well_formed(),
                self.margin == old(self).margin,
                self.sheet@.memory.slots.len() == old(self).sheet@.memory.slots.len(),
                self.path@ == path,
                board@ == d,
                start == unsearched(d, memory),
                legal == legal_moves(d),
                *budget.signals == job.signals,
                budget.node_limit == job.limits.nodes,
                relief.deadline is None,
                relief.node_limit is None,
                *relief.signals == *budget.signals,
                1 <= depth <= budget.max_depth + 1,
                1 <= budget.max_depth <= 127,
                0 <= completed_depth <= 127,
                all_playable(d, self.root_moves@),
                self.root_moves@.to_multiset() == legal.to_multiset(),
                legal.contains(best),
                !done ==> !self.stopped && cut is None && last is None,
                self.buf@.len() == 0,
                self.root_moves@.len() > 0,
                self.root_moves@[0] == best,
                !done && depth == 1 ==> self.sheet@ == start.work && completed_depth == 0
                    && self.root_moves@ == start.roots && best == start.best && reports
                    == start.reports,
                job.signals.raised() && !done ==> depth == 1,
                job.signals.raised() && done ==> deepened(
                    budget.leash(Some(POLL_INTERVAL_NODES)),
                    Some(1),
                    d,
                    path,
                    1,
                    budget.max_depth as int,
                    start,
                ) == (Session {
                    best,
                    completed: completed_depth as int,
                    roots: self.root_moves@,
                    work: self.sheet@,
                    reports,
                }),
                !done ==> reports.len() == depth - 1 && completed_depth == depth - 1,
                budget.steady(self.clock) && done ==> {
                    ||| reports.len() > 0 && is_a_mate(reports.last().score)
                    ||| budget.spent(self.sheet@.nodes)
                },
                tells(self.clock, started.ns(), self.told@, reports),
                within_the_mates(reports),
                self.clock == old(self).clock,
                old(out).keeps() ==> out.keeps() && out.kept() == old(out).kept() + self.told@,
                budget.is_late(self.clock) && !done ==> depth == 1,
                budget.is_late(self.clock) && done ==> deepened(
                    budget.leash(cut),
                    Some(1),
                    d,
                    path,
                    1,
                    budget.max_depth as int,
                    start,
                ) == (Session {
                    best,
                    completed: completed_depth as int,
                    roots: self.root_moves@,
                    work: self.sheet@,
                    reports,
                }),
                budget.is_late(self.clock) && job.signals.quiet() && done ==> deepened(
                    budget.leash(behind),
                    Some(1),
                    d,
                    path,
                    1,
                    budget.max_depth as int,
                    start,
                ) == (Session {
                    best,
                    completed: completed_depth as int,
                    roots: self.root_moves@,
                    work: self.sheet@,
                    reports,
                }),
                memory == old(self).sheet@.memory,
                d == job.game@.now().diagram,
                path == job.game@.history(),
                behind == poll_behind_first_move(job.game@, memory),
                budget.steady(self.clock) ==> cut is None && last is None,
                !done ==> forall|c: Option<u64>, l: Option<int>|
                    #[trigger] fits_so_far(c, l, self.sheet@.nodes, depth as int) ==> deepened(
                        budget.leash(c),
                        l,
                        d,
                        path,
                        1,
                        budget.max_depth as int,
                        start,
                    ) == deepened(
                        budget.leash(c),
                        l,
                        d,
                        path,
                        depth as int,
                        budget.max_depth as int,
                        (Session {
                            best,
                            completed: completed_depth as int,
                            roots: self.root_moves@,
                            work: self.sheet@,
                            reports,
                        }),
                    ),
                done ==> deepened(
                    budget.leash(cut),
                    last,
                    d,
                    path,
                    1,
                    budget.max_depth as int,
                    start,
                ) == (Session {
                    best,
                    completed: completed_depth as int,
                    roots: self.root_moves@,
                    work: self.sheet@,
                    reports,
                }),
            decreases
                    (if done {
                        0
                    } else {
                        budget.max_depth + 1 - depth
                    }),
        {
            let ghost before = *self;
            let ghost session = Session {
                best,
                completed: completed_depth as int,
                roots: self.root_moves@,
                work: self.sheet@,
                reports,
            };
            self.sheet.seldepth = 0;
            assert(self.sheet@ == (Work { seldepth: 0, ..session.work }));
            let first_move = if depth == 1 {
                Some(&relief)
            } else {
                None
            };
            let found = self.negamax_root(&mut board, depth, &budget, first_move);
            let ghost after = *self;
            let ghost iteration = Iteration {
                best: match found {
                    Some(score) => Some(score.0 as int),
                    None => None,
                },
                work: self.sheet@,
                stopped: self.stopped,
            };
            proof {
                assert forall|c: Option<u64>|
                    #[trigger] fits_iteration(
                        c,
                        budget.node_limit,
                        budget.steady(self.clock),
                        before.sheet@.nodes,
                        after.sheet@.nodes,
                        after.stopped,
                    ) implies iterated(budget.leash(c), d, path, depth as int, session)
                    == iteration by {
                }
                if job.signals.raised() {
                    assert(fits_iteration(
                        Some(POLL_INTERVAL_NODES),
                        budget.node_limit,
                        budget.steady(self.clock),
                        before.sheet@.nodes,
                        after.sheet@.nodes,
                        after.stopped,
                    ));
                    assert(session == start);
                }
                if budget.is_late(before.clock) && job.signals.quiet() {
                    assert(session == start);
                    assert((Work { seldepth: 0, ..begun(memory) }) == begun(memory));
                    assert(fits_iteration(
                        behind,
                        budget.node_limit,
                        budget.steady(self.clock),
                        before.sheet@.nodes,
                        after.sheet@.nodes,
                        after.stopped,
                    ));
                }
            }
            match found {
                None => {
                    done = true;
                    proof {
                        if self.stopped && !budget.steady(self.clock) {
                            cut = Some(self.sheet@.nodes);
                        }
                        assert(fits_iteration(
                            cut,
                            budget.node_limit,
                            budget.steady(self.clock),
                            before.sheet@.nodes,
                            after.sheet@.nodes,
                            after.stopped,
                        ));
                        assert(fits_so_far(cut, last, before.sheet@.nodes, depth as int));
                    }
                },
                Some(score) => {
                    if !self.stopped {
                        completed_depth = depth;
                    }
                    assert(self.sheet@.lines[0] == self.sheet.lines@[0]@);
                    best = self.sheet.lines[0][0];
                    let now = self.clock.now();
                    let elapsed = now.saturating_sub(started);
                    let line = SearchInfo {
                        depth,
                        seldepth: self.sheet.seldepth,
                        score,
                        nodes: self.sheet.nodes,
                        hashfull: Some(self.sheet.tt.hashfull()),
                        elapsed,
                        pv: &self.sheet.lines[0],
                    }.describe();
                    self.tell(out, line.as_str());
                    let ghost report = advanced(depth as int, session, iteration).reports.last();
                    proof {
                        assert(line@ == info_text(report, elapsed.ns()));
                        assert(self.clock.reads(now));
                        assert(told_at_a_reading(self.clock, started.ns(), line@, report));
                        reports = reports.push(report);
                    }
                    bring_to_front(&mut self.root_moves, best);
                    proof {
                        lemma_same_moves(d, self.root_moves@, before.root_moves@);
                        lemma_still_there(before.root_moves@, legal, best);
                    }
                    let expired = budget.expired(self.sheet.nodes, &self.clock);
                    if score.is_mate() || self.stopped || expired {
                        done = true;
                        proof {
                            if self.stopped {
                                if !budget.steady(self.clock) {
                                    cut = Some(self.sheet@.nodes);
                                }
                            } else if !score.means_mate() && !budget.spent(self.sheet@.nodes) {
                                last = Some(depth as int);
                            }
                            assert(fits_iteration(
                                cut,
                                budget.node_limit,
                                budget.steady(self.clock),
                                before.sheet@.nodes,
                                after.sheet@.nodes,
                                after.stopped,
                            ));
                            assert(fits_so_far(cut, last, before.sheet@.nodes, depth as int));
                        }
                    } else {
                        proof {
                            let next = Session {
                                best,
                                completed: completed_depth as int,
                                roots: self.root_moves@,
                                work: self.sheet@,
                                reports,
                            };
                            assert forall|c: Option<u64>, l: Option<int>|
                                #[trigger] fits_so_far(c, l, self.sheet@.nodes, depth + 1) implies
                                deepened(
                                budget.leash(c),
                                l,
                                d,
                                path,
                                1,
                                budget.max_depth as int,
                                start,
                            ) == deepened(
                                budget.leash(c),
                                l,
                                d,
                                path,
                                depth + 1,
                                budget.max_depth as int,
                                next,
                            ) by {
                                assert(fits_so_far(c, l, before.sheet@.nodes, depth as int));
                                assert(fits_iteration(
                                    c,
                                    budget.node_limit,
                                    budget.steady(self.clock),
                                    before.sheet@.nodes,
                                    after.sheet@.nodes,
                                    after.stopped,
                                ));
                            }
                        }
                        depth += 1;
                    }
                },
            }
        }
        proof {
            if !done {
                assert(fits_so_far(None, None, self.sheet@.nodes, depth as int));
            }
        }
        let answer = BestMove::Play { mv: best, ponder: None, completed_depth };
        assert(old(self).is_explained(*self, *job, started.ns(), answer, cut, last));
        proof {
            if is_overdue(old(self).clock, job.limits, d.side, old(self).margin.ns(), started.ns()) {
                assert(budget.is_late(self.clock));
                assert(old(self).is_explained(*self, *job, started.ns(), answer, cut, Some(1)));
            }
        }
        answer
    }

    /// The moves at the root of the last search, in the order in which the next
    /// iteration would have tried them.
    pub closed spec fn roots(self) -> Seq<Move> {
        self.root_moves@
    }

    pub fn root_moves(&self) -> (r: &Vec<Move>)
        ensures
            r@ == self.roots(),
    {
        &self.root_moves
    }

    /// The moves that are left in the list that the plies of a search share.
    pub closed spec fn left_over(self) -> nat {
        self.buf@.len()
    }

    pub fn buffered(&self) -> (r: usize)
        ensures
            r == self.left_over(),
    {
        self.buf.len()
    }

    /// Whether the two differ in nothing that a search leaves behind but the
    /// table.
    pub open spec fn only_the_table_changed(self, other: NegamaxSearcher<C>) -> bool {
        &&& self.work() == (Work { memory: self.work().memory, ..other.work() })
        &&& self.told() == other.told()
        &&& self.roots() == other.roots()
        &&& self.left_over() == other.left_over()
    }

    /// Forgets what carries from game to game.
    pub fn new_game(&mut self)
        requires
            old(self).well_formed(),
        ensures
            final(self).well_formed(),
            final(self).work().memory.blank(),
            final(self).work().memory.slots.len() == old(self).work().memory.slots.len(),
            final(self).margin_ns() == old(self).margin_ns(),
            final(self).timer() == old(self).timer(),
            final(self).only_the_table_changed(*old(self)),
    {
        self.sheet.tt.clear();
    }

    /// An empty table of `mb` MiB in place of the one there is. Returns the MiB
    /// that it has, which are fewer where `mb` is no power of two or the memory
    /// cannot be had.
    pub fn set_hash_mb(&mut self, mb: usize) -> (got: usize)
        requires
            old(self).well_formed(),
        ensures
            final(self).well_formed(),
            final(self).work().memory.blank(),
            is_power_floor(wanted_entries(mb as int), final(self).work().memory.slots.len() as int)
                || final(self).work().memory.slots.len() == FALLBACK_ENTRIES,
            is_power_floor(wanted_entries(mb as int), old(self).work().memory.slots.len() as int)
                ==> final(self).work().memory.slots.len() == old(self).work().memory.slots.len(),
            got == final(self).work().memory.slots.len() / ENTRIES_PER_MB as nat,
            final(self).margin_ns() == old(self).margin_ns(),
            final(self).timer() == old(self).timer(),
            final(self).only_the_table_changed(*old(self)),
    {
        self.sheet.tt.resize(mb);
        self.sheet.tt.mib()
    }

    /// Sets what is kept back from what the mover has.
    pub fn set_delivery_margin(&mut self, margin: Duration)
        requires
            old(self).well_formed(),
        ensures
            final(self).well_formed(),
            final(self).margin_ns() == margin.ns(),
            final(self).work() == old(self).work(),
            final(self).timer() == old(self).timer(),
            final(self).only_the_table_changed(*old(self)),
    {
        self.margin = margin;
    }
}

impl Worksheet {
    /// A new search begins.
    fn begin(&mut self)
        requires
            old(self)@.well_formed(),
        ensures
            final(self)@ == begun(old(self)@.memory),
            final(self)@.well_formed(),
    {
        self.nodes = 0;
        self.seldepth = 0;
        self.tt.new_search();
        self.lines = no_lines();
        self.killers = no_killers();
        self.history.clear();
        assert(self@.lines =~= begun(old(self)@.memory).lines);
        assert(self@.killers =~= begun(old(self)@.memory).killers);
        assert(self@.history =~= begun(old(self)@.memory).history);
    }
}

fn no_lines() -> (r: Vec<Vec<Move>>)
    ensures
        r@.len() == MAX_PLY + 1,
        forall|i: int| 0 <= i < r@.len() ==> (#[trigger] r@[i])@ == Seq::<Move>::empty(),
{
    let mut lines: Vec<Vec<Move>> = Vec::with_capacity(MAX_PLY + 1);
    let mut i: usize = 0;
    while i < MAX_PLY + 1
        invariant
            i <= MAX_PLY + 1,
            lines@.len() == i,
            forall|k: int| 0 <= k < i ==> (#[trigger] lines@[k])@ == Seq::<Move>::empty(),
        decreases MAX_PLY + 1 - i,
    {
        lines.push(Vec::new());
        i += 1;
    }
    lines
}

fn no_killers() -> (r: Vec<Killers>)
    ensures
        r@.len() == MAX_PLY + 1,
        forall|i: int|
            0 <= i < r@.len() ==> #[trigger] r@[i] == (Killers { newest: None, older: None }),
{
    vec![Killers { newest: None, older: None }; 129]
}

/// Exchanges the first move of a list with the first place of `mv` in it.
fn bring_to_front(list: &mut Vec<Move>, mv: Move)
    requires
        old(list)@.contains(mv),
    ensures
        first_at(old(list)@, 0, mv) is Some,
        final(list)@ == exchanged(old(list)@, 0, first_at(old(list)@, 0, mv)->0),
        final(list)@.to_multiset() == old(list)@.to_multiset(),
        final(list)@[0] == mv,
{
    let ghost k = choose|k: int| 0 <= k < list@.len() && list@[k] == mv;
    let len: usize = list.len();
    let mut i: usize = 0;
    while list[i] != mv
        invariant
            len == list@.len(),
            0 <= i <= k < len,
            list@ == old(list)@,
            list@[k] == mv,
            first_at(list@, 0, mv) == first_at(list@, i as int, mv),
        decreases list@.len() - i,
    {
        i += 1;
    }
    proof {
        lemma_exchanged(list@, 0, i as int);
    }
    let first = list[0];
    list.set(0, mv);
    list.set(i, first);
}

proof fn lemma_still_there(list: Seq<Move>, legal: Seq<Move>, mv: Move)
    requires
        list.to_multiset() == legal.to_multiset(),
        list.contains(mv),
    ensures
        legal.contains(mv),
{
    broadcast use vstd::seq_lib::group_to_multiset_ensures;

    assert(legal.to_multiset().count(mv) > 0);
}

/// The captures among moves that can be carried out can be carried out.
proof fn lemma_taking_plays(d: Diagram, list: Seq<Move>)
    requires
        all_playable(d, list),
    ensures
        all_playable(d, taking(d, list)),
    decreases list.len(),
{
    if list.len() > 0 {
        lemma_taking_plays(d, list.drop_last());
        let inner = taking(d, list.drop_last());
        assert forall|i: int| 0 <= i < taking(d, list).len() implies d.can_play(
            #[trigger] taking(d, list)[i],
        ) by {
            if i < inner.len() {
                assert(taking(d, list)[i] == inner[i]);
            } else {
                assert(list[list.len() - 1] == list.last());
            }
        }
    }
}

/// A `go` is held to a clock if it names a time for the move, a clock for the
/// mover or a period, unless it is without end; and its time is then up after what
/// it is allowed, counted from when it began.
pub proof fn law_a_go_is_held_to_the_clock_it_names(
    limits: Limits,
    mover: Color,
    margin: int,
    started: int,
)
    requires
        margin >= 0,
        started >= 0,
    ensures
        is_timed(limits, mover, margin) <==> !limits.infinite && {
            ||| limits.movetime is Some
            ||| mover == Color::Black && limits.btime is Some
            ||| mover == Color::White && limits.wtime is Some
            ||| limits.byoyomi is Some && limits.byoyomi->0.ns() > 0
        },
        is_timed(limits, mover, margin) ==> {
            let due = due_ns(limits, mover, margin, started);
            let allowed = allowed_ns(limits, mover, margin)->0;
            &&& due == started + allowed || due == MAX_NANOS
            &&& due <= started + allowed
            &&& due <= MAX_NANOS
        },
{
    law_the_period_a_share_and_the_increment_are_allowed(limits, mover, margin);
    if let Some(time) = limits.byoyomi {
        law_no_time_is_negative(time);
    }
}

/// What a search answers begins the last line that it told, if it told any; it told
/// of the depths one after the other; and the deepest that it did to its end is the
/// last of them or the one before. Without a line told, the answer is the first
/// legal move.
pub proof fn law_the_answer_begins_the_last_line_told<C: Clock>(
    cut: Option<u64>,
    last: Option<int>,
    clock: C,
    started: int,
    record: Record,
    limits: Limits,
    margin: int,
    memory: Memory,
    best: BestMove,
    work: Work,
    told: Seq<Seq<char>>,
)
    requires
        legal_moves(record.now().diagram).len() > 0,
        explains(cut, last, clock, started, record, limits, margin, memory, best, work, told),
    ensures
        exists|reports: Seq<Report>| {
            &&& #[trigger] tells(clock, started, told, reports)
            &&& best matches BestMove::Play { mv, ponder, completed_depth } && {
                &&& ponder is None
                &&& reports.len() > 0 ==> mv == reports.last().line[0]
                &&& legal_moves(record.now().diagram).contains(mv)
                &&& told.len() - 1 <= completed_depth <= told.len()
            }
            &&& reports.len() <= depth_for(
                limits,
                is_timed(limits, record.now().diagram.side, margin),
            )
            &&& forall|i: int|
                0 <= i < reports.len() ==> (#[trigger] reports[i]).depth == i + 1
                    && reports[i].line.len() > 0 && legal_line(
                    record.now().diagram,
                    reports[i].line,
                ) && -32_000 <= reports[i].score <= 32_000
        },
{
    let d = record.now().diagram;
    let leash = Leash { limit: limits.nodes, cut };
    let deepest = depth_for(limits, is_timed(limits, d.side, margin));
    law_every_line_told_is_legal(leash, last, d, record.history(), deepest, memory);
    law_depths_follow_one_another(leash, last, d, record.history(), deepest, memory);
    let session = played_out(leash, last, record, limits, margin, memory);
    assert(tells(clock, started, told, session.reports));
}

/// A search is of the position that the game has reached, with every position of
/// the game behind it, from every legal move there, one ply deep at first and as
/// deep as was asked at most.
pub proof fn law_a_search_is_of_the_game_as_it_stands(
    leash: Leash,
    last: Option<int>,
    record: Record,
    limits: Limits,
    margin: int,
    memory: Memory,
)
    ensures
        ({
            let d = reached(record.initial, record.moves).diagram;
            let start = unsearched(d, memory);
            &&& played_out(leash, last, record, limits, margin, memory) == deepened(
                leash,
                last,
                d,
                record.history(),
                1,
                depth_for(limits, is_timed(limits, d.side, margin)),
                start,
            )
            &&& start.roots == legal_moves(d)
            &&& start.best == legal_moves(d)[0]
            &&& start.completed == 0
            &&& start.reports.len() == 0
            &&& start.work == begun(memory)
        }),
{
}

/// A `go` is unhurried if it is not held to a clock or its time is up at no reading
/// of it, and overdue if it is held to one and its time is up at every reading.
pub proof fn law_a_go_is_hurried_by_its_clock_alone<C: Clock>(
    clock: C,
    limits: Limits,
    mover: Color,
    margin: int,
    started: int,
)
    ensures
        is_unhurried(clock, limits, mover, margin, started) <==> (is_timed(limits, mover, margin)
            ==> forall|now: Duration| #[trigger]
            clock.reads(now) ==> now.ns() < due_ns(limits, mover, margin, started)),
        is_overdue(clock, limits, mover, margin, started) <==> is_timed(limits, mover, margin) && (
        forall|now: Duration| #[trigger]
            clock.reads(now) ==> now.ns() >= due_ns(limits, mover, margin, started)),
{
}

/// A search that nobody ends goes as deep as was asked: where no signal stops it,
/// its time is never up, its node limit is not used up and the last score that it
/// told means no mate, it has done the deepest iteration that was asked for to its
/// end, and told of every one from the first to that. A side without a legal move
/// resigns, and no other does.
pub proof fn law_an_undisturbed_search_goes_as_deep_as_asked<C: Clock, S: StopSource>(
    before: NegamaxSearcher<C>,
    after: NegamaxSearcher<C>,
    job: SearchJob<S>,
    started: int,
    best: BestMove,
)
    requires
        before.concludes(after, job, started, best),
        job.signals.quiet(),
        is_unhurried(
            before.timer(),
            job.limits,
            job.game@.now().diagram.side,
            before.margin_ns(),
            started,
        ),
    ensures
        ({
            let d = job.game@.now().diagram;
            let deepest = depth_for(job.limits, is_timed(job.limits, d.side, before.margin_ns()));
            &&& best is Resign <==> legal_moves(d).len() == 0
            &&& legal_moves(d).len() > 0 ==> exists|reports: Seq<Report>| {
                &&& #[trigger] tells(before.timer(), started, after.told(), reports)
                &&& reports.len() == after.told().len()
                &&& (job.limits.nodes is None || after.work().nodes < job.limits.nodes->0) && (
                reports.len() == 0 || -31_872 < reports.last().score < 31_872) ==> {
                    &&& after.told().len() == deepest
                    &&& best matches BestMove::Play { mv, completed_depth, .. } && completed_depth
                        == deepest && mv == reports.last().line[0]
                    &&& forall|i: int|
                        0 <= i < reports.len() ==> (#[trigger] reports[i]).depth == i + 1
                }
            }
        }),
{
    let record = job.game@;
    let d = record.now().diagram;
    let margin = before.margin_ns();
    let memory = before.work().memory;
    let deepest = depth_for(job.limits, is_timed(job.limits, d.side, margin));
    let leash = Leash { limit: job.limits.nodes, cut: None };
    law_a_depth_that_is_named_is_searched_to(job.limits, is_timed(job.limits, d.side, margin));
    if legal_moves(d).len() > 0 {
        law_every_line_told_is_legal(leash, None, d, record.history(), deepest, memory);
        law_depths_follow_one_another(leash, None, d, record.history(), deepest, memory);
        let session = played_out(leash, None, record, job.limits, margin, memory);
        assert(tells(before.timer(), started, after.told(), session.reports));
    }
}

/// A line that is told carries the time from the start of the search to a reading
/// of the clock, and none if that reading comes before the start; and every
/// iteration that is told of has a line of its own.
pub proof fn law_a_line_tells_the_time_since_the_start<C: Clock>(
    clock: C,
    started: int,
    lines: Seq<Seq<char>>,
    reports: Seq<Report>,
    i: int,
)
    requires
        tells(clock, started, lines, reports),
        0 <= i < lines.len(),
    ensures
        lines.len() == reports.len(),
        exists|now: Duration| #[trigger]
            clock.reads(now) && lines[i] == info_text(
                reports[i],
                if now.ns() >= started {
                    now.ns() - started
                } else {
                    0
                },
            ),
{
    assert(told_at_a_reading(clock, started, lines[i], reports[i]));
    let now = choose|now: Duration| #[trigger]
        clock.reads(now) && lines[i] == info_text(reports[i], less(now.ns(), started));
    assert(clock.reads(now));
}

} // verus!
