//! What a search is asked, what may stop it, and what it answers.

use vstd::prelude::*;

use crate::position::usi_text;
use crate::search::clock::Duration;
use crate::search::game::Game;
use crate::search::score::Depth;
use crate::shogi::Move;

verus! {

/// What a `go` asked for.
#[derive(Clone, Copy, Debug, PartialEq, Eq, Structural)]
pub struct Limits {
    pub btime: Option<Duration>,
    pub wtime: Option<Duration>,
    pub binc: Option<Duration>,
    pub winc: Option<Duration>,
    pub byoyomi: Option<Duration>,
    pub movetime: Option<Duration>,
    pub depth: Option<u32>,
    pub nodes: Option<u64>,
    pub infinite: bool,
    pub ponder: bool,
}

impl Limits {
    /// A `go` that asks for nothing in particular.
    pub open spec fn unlimited() -> Limits {
        Limits {
            btime: None,
            wtime: None,
            binc: None,
            winc: None,
            byoyomi: None,
            movetime: None,
            depth: None,
            nodes: None,
            infinite: false,
            ponder: false,
        }
    }
}

impl Default for Limits {
    fn default() -> (r: Limits)
        ensures
            r == Limits::unlimited(),
    {
        Limits {
            btime: None,
            wtime: None,
            binc: None,
            winc: None,
            byoyomi: None,
            movetime: None,
            depth: None,
            nodes: None,
            infinite: false,
            ponder: false,
        }
    }
}

/// What a running search asks whether it is to stop.
pub trait StopSource {
    /// Whether the source never asks a search to stop.
    open spec fn quiet(&self) -> bool {
        false
    }

    /// Whether the source asks a search to stop whenever the search asks.
    open spec fn raised(&self) -> bool {
        false
    }

    fn stopped(&self) -> (r: bool)
        ensures
            self.quiet() ==> !r,
            self.raised() ==> r,
    ;
}

/// The flags that end a search from outside of it, fresh for every `go`. A flag
/// that was raised stays so.
#[derive(Clone, Copy, Debug, PartialEq, Eq, Structural)]
pub struct SearchSignals {
    stop: bool,
    ponder_hit: bool,
}

impl SearchSignals {
    /// Whether the search was asked to return.
    pub closed spec fn has_stopped(self) -> bool {
        self.stop
    }

    /// Whether the move that a ponder search guessed was played.
    pub closed spec fn has_ponder_hit(self) -> bool {
        self.ponder_hit
    }

    pub fn new() -> (r: SearchSignals)
        ensures
            !r.has_stopped(),
            !r.has_ponder_hit(),
    {
        SearchSignals { stop: false, ponder_hit: false }
    }

    pub fn stopped(&self) -> (r: bool)
        ensures
            r == self.has_stopped(),
    {
        self.stop
    }

    pub fn ponder_hit(&self) -> (r: bool)
        ensures
            r == self.has_ponder_hit(),
    {
        self.ponder_hit
    }

    /// Asks the search to return as soon as it can.
    pub fn stop(&mut self)
        ensures
            final(self).has_stopped(),
            final(self).has_ponder_hit() == old(self).has_ponder_hit(),
    {
        self.stop = true;
    }

    /// Tells a ponder search that the move it guessed was played.
    pub fn ponderhit(&mut self)
        ensures
            final(self).has_ponder_hit(),
            final(self).has_stopped() == old(self).has_stopped(),
    {
        self.ponder_hit = true;
    }

    /// Whether one who waits for a signal has to go on waiting: no flag has been
    /// raised.
    pub fn wait_until_signalled(&self) -> (r: bool)
        ensures
            r == (!self.has_stopped() && !self.has_ponder_hit()),
    {
        !self.stop && !self.ponder_hit
    }
}

impl Default for SearchSignals {
    fn default() -> (r: SearchSignals)
        ensures
            !r.has_stopped(),
            !r.has_ponder_hit(),
    {
        SearchSignals::new()
    }
}

impl StopSource for SearchSignals {
    open spec fn quiet(&self) -> bool {
        !self.has_stopped()
    }

    open spec fn raised(&self) -> bool {
        self.has_stopped()
    }

    fn stopped(&self) -> (r: bool)
        ensures
            r == self.has_stopped(),
    {
        self.stop
    }
}

/// Whether an answer that is ready has to be held back. A search without end
/// answers when it is told to stop, and a ponder search is not answered before
/// its move was played or it was stopped; either signal releases it.
pub open spec fn holds_back(limits: Limits, signals: SearchSignals) -> bool {
    (limits.infinite || limits.ponder) && !signals.has_stopped() && !signals.has_ponder_hit()
}

pub fn is_held_back(limits: &Limits, signals: &SearchSignals) -> (r: bool)
    ensures
        r == holds_back(*limits, *signals),
{
    (limits.infinite || limits.ponder) && signals.wait_until_signalled()
}

/// One search to run.
pub struct SearchJob<S> {
    /// Goes up with every `go`.
    pub id: u64,
    /// The search's own copy of the game.
    pub game: Game,
    pub limits: Limits,
    pub signals: S,
}

/// A search's answer.
#[derive(Clone, Copy, Debug, PartialEq, Eq, Structural)]
pub enum BestMove {
    Play {
        mv: Move,
        /// The reply that is expected of the opponent.
        ponder: Option<Move>,
        /// The deepest iteration that got through every move at the root.
        completed_depth: Depth,
    },
    /// The side to move has no legal move.
    Resign,
}

/// What a search that was asked with `limits` is answered with, and the limits
/// that say whether the answer is held back: what it found, or resignation where
/// it did not return. One that did not return is not waited for as one without
/// end.
pub open spec fn settled(found: Option<BestMove>, limits: Limits) -> (BestMove, Limits) {
    match found {
        Some(best) => (best, limits),
        None => (BestMove::Resign, Limits { infinite: false, ..limits }),
    }
}

pub fn settle(found: Option<BestMove>, limits: &Limits) -> (r: (BestMove, Limits))
    ensures
        r == settled(found, *limits),
{
    match found {
        Some(best) => (best, *limits),
        None => (BestMove::Resign, Limits { infinite: false, ..*limits }),
    }
}

/// What an answer reads as in a log.
pub open spec fn answer_text(best: BestMove) -> Seq<char> {
    match best {
        BestMove::Resign => "resign"@,
        BestMove::Play { mv, ponder, .. } => match ponder {
            None => usi_text(mv),
            Some(reply) => usi_text(mv) + " (ponder "@ + usi_text(reply) + ")"@,
        },
    }
}

impl BestMove {
    /// The answer as a log shows it.
    pub fn describe(&self) -> (r: String)
        ensures
            r@ == answer_text(*self),
    {
        match *self {
            BestMove::Resign => "resign".to_owned(),
            BestMove::Play { mv, ponder, .. } => {
                let mut text = mv.to_usi_owned();
                if let Some(reply) = ponder {
                    text.append(" (ponder ");
                    text.append(reply.to_usi_owned().as_str());
                    text.append(")");
                }
                text
            },
        }
    }
}

/// Where the progress of a search is told, a line at a time.
pub trait InfoSink: Send + Sync {
    /// Whether the sink keeps the lines that it is told.
    open spec fn keeps(&self) -> bool {
        false
    }

    /// The lines that a sink that keeps them was told, in order.
    open spec fn kept(&self) -> Seq<Seq<char>> {
        Seq::empty()
    }

    fn info(&mut self, line: &str)
        ensures
            old(self).keeps() ==> {
                &&& final(self).keeps()
                &&& final(self).kept() == old(self).kept().push(line@)
            },
    ;
}

/// Tells nobody.
#[derive(Clone, Copy, Debug, Default)]
pub struct SilentSink;

impl InfoSink for SilentSink {
    fn info(&mut self, _line: &str) {
    }
}

/// An answer is held back only where the `go` was without end or a ponder, and
/// only until either signal comes; a signal that has come is enough, whichever it
/// is.
pub proof fn law_either_signal_releases_an_answer(limits: Limits, signals: SearchSignals)
    ensures
        holds_back(limits, signals) ==> limits.infinite || limits.ponder,
        signals.has_stopped() || signals.has_ponder_hit() ==> !holds_back(limits, signals),
        (limits.infinite || limits.ponder) && !signals.has_stopped() && !signals.has_ponder_hit()
            ==> holds_back(limits, signals),
{
}

/// What a search found is answered as it is; one that did not return resigns, and
/// is held back no longer than until its ponder is over.
pub proof fn law_what_was_found_is_answered(
    found: Option<BestMove>,
    limits: Limits,
    signals: SearchSignals,
)
    ensures
        found matches Some(best) ==> settled(found, limits) == (best, limits),
        found is None ==> settled(found, limits).0 == BestMove::Resign,
        found is None ==> (holds_back(settled(found, limits).1, signals) <==> limits.ponder
            && !signals.has_stopped() && !signals.has_ponder_hit()),
{
}

} // verus!
