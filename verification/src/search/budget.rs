//! What a search is allowed to spend.

use vstd::prelude::*;

use crate::search::clock::{
    is_ahead, is_past, law_no_time_is_negative, less, sum_of, Clock, Duration, MAX_NANOS,
};
use crate::search::job::{Limits, StopSource};
use crate::search::model::Leash;
use crate::search::score::Depth;
use crate::shogi::Color;

verus! {

/// How deep a `go` that named no budget at all is searched.
pub const DEFAULT_DEPTH: Depth = 4;

/// How many more moves of its own a side is taken to have ahead of it, when its
/// remaining clock is parted among them.
pub const MOVE_HORIZON: u32 = 45;

/// What is kept back from what the mover has, in milliseconds, unless another
/// margin is set.
pub const DEFAULT_DELIVERY_MARGIN_MS: u64 = 30;

/// The deepest iteration that a search starts.
pub const MAX_DEPTH: Depth = 127;

/// A length of time in nanoseconds, where none is named as none at all.
pub open spec fn ns_or_zero(time: Option<Duration>) -> int {
    match time {
        Some(time) => time.ns(),
        None => 0,
    }
}

/// How many nanoseconds a `go` may spend on a move of `mover`'s, or `None` if it
/// named no clock for that side. A time for the move is taken as it is. Of the
/// side's own clock a share is spent, with the increment and the whole of the
/// period, but never more than it has without the margin.
pub open spec fn allowed_ns(limits: Limits, mover: Color, margin: int) -> Option<int> {
    let period = ns_or_zero(limits.byoyomi);
    let main = match mover {
        Color::Black => limits.btime,
        Color::White => limits.wtime,
    };
    let increment = match mover {
        Color::Black => limits.binc,
        Color::White => limits.winc,
    };
    match limits.movetime {
        Some(movetime) => Some(movetime.ns()),
        None => if main is None && period == 0 {
            None
        } else {
            let held = less(sum_of(ns_or_zero(main), period), margin);
            let share = sum_of(
                sum_of(period, ns_or_zero(main) / MOVE_HORIZON as int),
                ns_or_zero(increment),
            );
            Some(
                if share <= held {
                    share
                } else {
                    held
                },
            )
        },
    }
}

/// How long a `go` may spend on a move of `mover`'s, or `None` if it named no
/// clock for that side.
pub fn allowance(limits: &Limits, mover: Color, margin: Duration) -> (r: Option<Duration>)
    ensures
        match r {
            Some(time) => allowed_ns(*limits, mover, margin.ns()) == Some(time.ns()),
            None => allowed_ns(*limits, mover, margin.ns()) is None,
        },
{
    if let Some(movetime) = limits.movetime {
        return Some(movetime);
    }
    let period = or_zero(limits.byoyomi);
    let (main, increment) = match mover {
        Color::Black => (limits.btime, limits.binc),
        Color::White => (limits.wtime, limits.winc),
    };
    if main.is_none() && period.is_zero() {
        return None;
    }
    let main = or_zero(main);
    let available = main.saturating_add(period);
    let spend = period.saturating_add(main.part_of(MOVE_HORIZON)).saturating_add(
        or_zero(increment),
    );
    Some(spend.min(available.saturating_sub(margin)))
}

fn or_zero(time: Option<Duration>) -> (r: Duration)
    ensures
        r.ns() == ns_or_zero(time),
{
    match time {
        Some(time) => time,
        None => Duration::zero(),
    }
}

/// The deepest iteration that a `go` asks for: the depth that it names, as far
/// as a search goes; else as far as a search goes, if it names any other
/// budget; else the default.
pub open spec fn depth_for(limits: Limits, timed: bool) -> int {
    match limits.depth {
        Some(depth) => if depth < 1 {
            1
        } else if depth > MAX_DEPTH {
            MAX_DEPTH as int
        } else {
            depth as int
        },
        None => if limits.infinite || timed || limits.nodes is Some {
            MAX_DEPTH as int
        } else {
            DEFAULT_DEPTH as int
        },
    }
}

/// What a search may spend. The deadline is on the clock that the search is
/// timed by.
pub struct Budget<'a, S> {
    pub signals: &'a S,
    pub deadline: Option<Duration>,
    pub node_limit: Option<u64>,
    pub max_depth: Depth,
}

impl<'a, S: StopSource> Budget<'a, S> {
    /// Whether neither the clock nor a signal ever ends the search: no signal
    /// stops it, and a deadline is ahead at every reading.
    pub open spec fn steady<C: Clock>(self, clock: C) -> bool {
        self.signals.quiet() && (self.deadline is None || is_ahead(clock, self.deadline->0.ns()))
    }

    /// Whether the deadline has passed at every reading of the clock.
    pub open spec fn is_late<C: Clock>(self, clock: C) -> bool {
        self.deadline is Some && is_past(clock, self.deadline->0.ns())
    }

    /// Whether the search ends whenever it asks: a signal always stops it, or
    /// the deadline has always passed.
    pub open spec fn doomed<C: Clock>(self, clock: C) -> bool {
        self.signals.raised() || self.is_late(clock)
    }

    /// Whether the node limit is used up.
    pub open spec fn spent(self, nodes: u64) -> bool {
        self.node_limit is Some && nodes >= self.node_limit->0
    }

    /// The leash of a search that the clock or a signal cut off at `cut`.
    pub open spec fn leash(self, cut: Option<u64>) -> Leash {
        Leash { limit: self.node_limit, cut }
    }

    /// The budget of a `go` that began at `started`. A search without end has no
    /// deadline, whatever clock it names.
    pub fn new(
        limits: &Limits,
        signals: &'a S,
        started: Duration,
        mover: Color,
        margin: Duration,
    ) -> (r: Budget<'a, S>)
        ensures
            *r.signals == *signals,
            r.node_limit == limits.nodes,
            match r.deadline {
                Some(deadline) => !limits.infinite && allowed_ns(*limits, mover, margin.ns()) is Some
                    && deadline.ns() == sum_of(
                    started.ns(),
                    allowed_ns(*limits, mover, margin.ns())->0,
                ),
                None => limits.infinite || allowed_ns(*limits, mover, margin.ns()) is None,
            },
            r.max_depth == depth_for(*limits, r.deadline is Some),
            1 <= r.max_depth <= MAX_DEPTH,
    {
        let deadline = if limits.infinite {
            None
        } else {
            match allowance(limits, mover, margin) {
                Some(spend) => Some(started.saturating_add(spend)),
                None => None,
            }
        };
        let max_depth: Depth = match limits.depth {
            Some(depth) => {
                if depth < 1 {
                    1
                } else if depth > 127 {
                    MAX_DEPTH
                } else {
                    depth as i32
                }
            },
            None => {
                if limits.infinite || deadline.is_some() || limits.nodes.is_some() {
                    MAX_DEPTH
                } else {
                    DEFAULT_DEPTH
                }
            },
        };
        Budget { signals, deadline, node_limit: limits.nodes, max_depth }
    }

    /// The same budget without the deadline and the node limit. Signals still
    /// count.
    pub fn without_limits(&self) -> (r: Budget<'a, S>)
        ensures
            *r.signals == *self.signals,
            r.deadline is None,
            r.node_limit is None,
            r.max_depth == self.max_depth,
    {
        Budget {
            signals: self.signals,
            deadline: None,
            node_limit: None,
            max_depth: self.max_depth,
        }
    }

    /// Whether the budget is used up: the node limit is, or the deadline has
    /// passed at the time `now`, where it was read.
    pub open spec fn over(self, nodes: u64, now: Option<Duration>) -> bool {
        self.spent(nodes) || (self.deadline is Some && now is Some && now->0.ns()
            >= self.deadline->0.ns())
    }

    pub fn is_over(&self, nodes: u64, now: Option<Duration>) -> (r: bool)
        ensures
            r == self.over(nodes, now),
    {
        if let Some(limit) = self.node_limit {
            if nodes >= limit {
                return true;
            }
        }
        match (self.deadline, now) {
            (Some(deadline), Some(now)) => now.reaches(deadline),
            _ => false,
        }
    }

    /// Whether the search is to end: a signal says so, the node limit is used
    /// up, or the deadline has passed at a reading of the clock. A budget without
    /// a deadline reads no clock.
    pub fn expired<C: Clock>(&self, nodes: u64, clock: &C) -> (r: bool)
        ensures
            self.spent(nodes) ==> r,
            self.doomed(*clock) ==> r,
            r && self.steady(*clock) ==> self.spent(nodes),
            r && self.signals.quiet() && !self.spent(nodes) ==> exists|now: Duration| #[trigger]
                clock.reads(now) && self.over(nodes, Some(now)),
            !r && self.deadline is Some ==> exists|now: Duration| #[trigger]
                clock.reads(now) && !self.over(nodes, Some(now)),
    {
        if self.signals.stopped() {
            return true;
        }
        if self.is_over(nodes, None) {
            return true;
        }
        match self.deadline {
            Some(_) => {
                let now = clock.now();
                self.is_over(nodes, Some(now))
            },
            None => false,
        }
    }
}

/// What the mover is allowed never passes what it has without the margin,
/// unless the time was named for this move.
pub proof fn law_the_allowance_keeps_the_margin(limits: Limits, mover: Color, margin: int)
    requires
        limits.movetime is None,
        allowed_ns(limits, mover, margin) is Some,
    ensures
        allowed_ns(limits, mover, margin)->0 <= less(
            sum_of(
                ns_or_zero(
                    match mover {
                        Color::Black => limits.btime,
                        Color::White => limits.wtime,
                    },
                ),
                ns_or_zero(limits.byoyomi),
            ),
            margin,
        ),
{
}

/// The smaller of two numbers.
pub open spec fn smaller(a: int, b: int) -> int {
    if a <= b {
        a
    } else {
        b
    }
}

/// A `go` that names a time for the move allows that time. One that does not is
/// held to a clock where it names one for the mover or a period, and then allows
/// the whole of the period, a forty-fifth of the mover's clock and its increment
/// together, or all that the mover has but for the margin, whichever is less; as
/// far as times can be held.
pub proof fn law_the_period_a_share_and_the_increment_are_allowed(
    limits: Limits,
    mover: Color,
    margin: int,
)
    requires
        margin >= 0,
    ensures
        limits.movetime matches Some(time) ==> allowed_ns(limits, mover, margin) == Some(time.ns()),
        limits.movetime is None ==> {
            let (clock, step) = if mover == Color::Black {
                (limits.btime, limits.binc)
            } else {
                (limits.wtime, limits.winc)
            };
            let main = if clock is Some {
                clock->0.ns()
            } else {
                0
            };
            let increment = if step is Some {
                step->0.ns()
            } else {
                0
            };
            let period = if limits.byoyomi is Some {
                limits.byoyomi->0.ns()
            } else {
                0
            };
            let left = smaller(main + period, MAX_NANOS as int) - margin;
            &&& allowed_ns(limits, mover, margin) is None <==> clock is None && period == 0
            &&& allowed_ns(limits, mover, margin) matches Some(time) ==> time == smaller(
                smaller(period + main / 45 + increment, MAX_NANOS as int),
                if left < 0 {
                    0
                } else {
                    left
                },
            )
        },
{
    if let Some(time) = limits.btime {
        law_no_time_is_negative(time);
    }
    if let Some(time) = limits.wtime {
        law_no_time_is_negative(time);
    }
    if let Some(time) = limits.binc {
        law_no_time_is_negative(time);
    }
    if let Some(time) = limits.winc {
        law_no_time_is_negative(time);
    }
    if let Some(time) = limits.byoyomi {
        law_no_time_is_negative(time);
    }
}

/// A longer period, with the rest as it was, allows as much more, until what the
/// mover has but for the margin is all allowed; and no time that is named ever
/// allows less for being longer.
#[verifier::rlimit(30)]
pub proof fn law_a_longer_period_allows_more(
    shorter: Limits,
    longer: Limits,
    mover: Color,
    margin: int,
)
    requires
        margin >= 0,
        shorter.movetime is None,
        longer == (Limits { byoyomi: longer.byoyomi, ..shorter }),
        shorter.byoyomi is Some,
        longer.byoyomi is Some,
        shorter.byoyomi->0.ns() <= longer.byoyomi->0.ns(),
        allowed_ns(shorter, mover, margin) is Some,
    ensures
        ({
            let more = longer.byoyomi->0.ns() - shorter.byoyomi->0.ns();
            let before = allowed_ns(shorter, mover, margin)->0;
            let after = allowed_ns(longer, mover, margin);
            let held = less(
                sum_of(
                    ns_or_zero(
                        if mover == Color::Black {
                            shorter.btime
                        } else {
                            shorter.wtime
                        },
                    ),
                    longer.byoyomi->0.ns(),
                ),
                margin,
            );
            &&& after is Some
            &&& before <= after->0
            &&& smaller(longer.byoyomi->0.ns(), held) <= after->0
            &&& before + more <= MAX_NANOS ==> after->0 >= smaller(before + more, held)
        }),
{
    law_the_period_a_share_and_the_increment_are_allowed(shorter, mover, margin);
    law_the_period_a_share_and_the_increment_are_allowed(longer, mover, margin);
    law_no_time_is_negative(shorter.byoyomi->0);
    if let Some(time) = shorter.btime {
        law_no_time_is_negative(time);
    }
    if let Some(time) = shorter.wtime {
        law_no_time_is_negative(time);
    }
    if let Some(time) = shorter.binc {
        law_no_time_is_negative(time);
    }
    if let Some(time) = shorter.winc {
        law_no_time_is_negative(time);
    }
}

/// A depth that is named is searched to, as far as a search goes; without one, a
/// `go` that names any other budget is searched as deep as a search goes, and one
/// that names none four plies deep.
pub proof fn law_a_depth_that_is_named_is_searched_to(limits: Limits, timed: bool)
    ensures
        limits.depth matches Some(depth) ==> {
            &&& depth == 0 ==> depth_for(limits, timed) == 1
            &&& 1 <= depth <= 127 ==> depth_for(limits, timed) == depth
            &&& depth > 127 ==> depth_for(limits, timed) == 127
        },
        limits.depth is None && (limits.infinite || timed || limits.nodes is Some) ==> depth_for(
            limits,
            timed,
        ) == 127,
        limits.depth is None && !limits.infinite && !timed && limits.nodes is None ==> depth_for(
            limits,
            timed,
        ) == 4,
        1 <= depth_for(limits, timed) <= 127,
{
}

/// A budget is over once its node limit is counted or its deadline is reached,
/// and not before either; and what is over stays over.
pub proof fn law_a_budget_is_over_at_its_limits<'a, S: StopSource>(
    budget: Budget<'a, S>,
    nodes: u64,
    now: Option<Duration>,
    more: u64,
    later: Duration,
)
    ensures
        budget.over(nodes, now) <==> {
            ||| budget.node_limit is Some && nodes >= budget.node_limit->0
            ||| budget.deadline is Some && now is Some && now->0.ns() >= budget.deadline->0.ns()
        },
        budget.over(nodes, now) && more >= nodes && now is Some && later.ns() >= now->0.ns()
            ==> budget.over(more, Some(later)),
{
}

/// The opponent's clock changes nothing: only the mover's own is read.
pub proof fn law_only_the_movers_clock_counts(a: Limits, b: Limits, mover: Color, margin: int)
    requires
        a.movetime == b.movetime,
        a.byoyomi == b.byoyomi,
        mover == Color::Black ==> a.btime == b.btime && a.binc == b.binc,
        mover == Color::White ==> a.wtime == b.wtime && a.winc == b.winc,
    ensures
        allowed_ns(a, mover, margin) == allowed_ns(b, mover, margin),
{
}

/// A budget with a deadline is late if every reading of the clock has reached it;
/// a search on it ends whenever it asks, as one does whose signals always stop it.
/// It is steady if no signal stops it and no reading reaches its deadline. It
/// cannot be late and steady at once, if the clock reads at all.
pub proof fn law_a_budget_is_late_or_steady_by_its_clock<'a, S: StopSource, C: Clock>(
    budget: Budget<'a, S>,
    clock: C,
    now: Duration,
)
    ensures
        budget.is_late(clock) <==> budget.deadline is Some && forall|t: Duration| #[trigger]
            clock.reads(t) ==> t.ns() >= budget.deadline->0.ns(),
        budget.doomed(clock) <==> budget.signals.raised() || budget.is_late(clock),
        budget.steady(clock) <==> budget.signals.quiet() && (budget.deadline is Some
            ==> forall|t: Duration| #[trigger]
            clock.reads(t) ==> t.ns() < budget.deadline->0.ns()),
        clock.reads(now) ==> !(budget.is_late(clock) && budget.steady(clock)),
{
}

} // verus!
