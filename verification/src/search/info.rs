//! The `info` line that a search sends while it is thinking.

use vstd::prelude::*;

use crate::position::usi_text;
use crate::search::clock::Duration;
use crate::search::game::line_text;
use crate::search::model::Report;
use crate::search::score::{Depth, Score};
use crate::shogi::Move;
use crate::text::{decimal, push_integer, push_number};

verus! {

/// Nodes per second, or none when no time has passed.
pub open spec fn rate(nodes: u64, ns: int) -> int {
    if ns == 0 {
        0
    } else {
        nodes * 1_000_000_000 / ns
    }
}

/// Nodes per second, or zero when no time has passed. Counted from nanoseconds:
/// an early iteration takes less than a millisecond.
pub fn nps(nodes: u64, elapsed: Duration) -> (r: u128)
    ensures
        r == rate(nodes, elapsed.ns()),
{
    let nanos: u128 = elapsed.as_nanos();
    if nanos == 0 {
        0
    } else {
        nodes as u128 * 1_000_000_000 / nanos
    }
}

/// A score as USI spells it: plies to mate, or else centipawns.
pub open spec fn usi_score(score: int) -> Seq<char> {
    match Score(score as i32).plies_to_mate() {
        Some(plies) => " score mate "@ + decimal(plies),
        None => " score cp "@ + decimal(score),
    }
}

/// A line as USI spells it. Without moves there is no line.
pub open spec fn usi_line(line: Seq<Move>) -> Seq<char> {
    if line.len() == 0 {
        Seq::empty()
    } else {
        " pv"@ + line_text(line)
    }
}

/// What is told of an iteration that ended `ns` nanoseconds into the search.
pub open spec fn info_text(report: Report, ns: int) -> Seq<char> {
    "info depth "@ + decimal(report.depth) + " seldepth "@ + decimal(report.seldepth) + " time "@
        + decimal(ns / 1_000_000) + " nodes "@ + decimal(report.nodes as int) + " nps "@ + decimal(
        rate(report.nodes, ns),
    ) + (match report.hashfull {
        Some(permille) => " hashfull "@ + decimal(permille),
        None => Seq::empty(),
    }) + usi_score(report.score) + usi_line(report.line)
}

/// One iteration's progress.
#[derive(Clone, Copy, Debug)]
pub struct SearchInfo<'a> {
    pub depth: Depth,
    /// The deepest ply that the iteration reached, quiescence counted.
    pub seldepth: usize,
    pub score: Score,
    pub nodes: u64,
    /// How full the table is, in permille, where there is one.
    pub hashfull: Option<u32>,
    pub elapsed: Duration,
    /// The principal variation, best move first.
    pub pv: &'a Vec<Move>,
}

impl<'a> View for SearchInfo<'a> {
    type V = Report;

    open spec fn view(&self) -> Report {
        Report {
            depth: self.depth as int,
            seldepth: self.seldepth as int,
            score: self.score.0 as int,
            nodes: self.nodes,
            hashfull: match self.hashfull {
                Some(permille) => Some(permille as int),
                None => None,
            },
            line: self.pv@,
        }
    }
}

impl<'a> SearchInfo<'a> {
    /// The `info` line.
    pub fn describe(&self) -> (r: String)
        ensures
            r@ == info_text(self@, self.elapsed.ns()),
    {
        let mut text = "info depth ".to_owned();
        push_integer(&mut text, self.depth as i64);
        text.append(" seldepth ");
        push_number(&mut text, self.seldepth as u128);
        text.append(" time ");
        push_number(&mut text, self.elapsed.as_millis());
        text.append(" nodes ");
        push_number(&mut text, self.nodes as u128);
        text.append(" nps ");
        push_number(&mut text, nps(self.nodes, self.elapsed));
        if let Some(permille) = self.hashfull {
            let ghost head = text@;
            text.append(" hashfull ");
            push_number(&mut text, permille as u128);
            assert(text@ =~= head + (" hashfull "@ + decimal(permille as int)));
        } else {
            assert(text@ =~= text@ + Seq::<char>::empty());
        }
        let ghost head = text@;
        match self.score.mate_plies() {
            Some(plies) => {
                text.append(" score mate ");
                push_integer(&mut text, plies as i64);
            },
            None => {
                text.append(" score cp ");
                push_integer(&mut text, self.score.get() as i64);
            },
        }
        assert(text@ =~= head + usi_score(self.score.0 as int));
        let ghost head = text@;
        if self.pv.len() > 0 {
            text.append(" pv");
        }
        let mut i: usize = 0;
        proof {
            assert(self.pv@.take(0) =~= Seq::empty());
            assert(text@ =~= head + (if self.pv@.len() == 0 {
                Seq::empty()
            } else {
                " pv"@ + line_text(self.pv@.take(0))
            }));
        }
        while i < self.pv.len()
            invariant
                i <= self.pv@.len(),
                text@ == head + (if self.pv@.len() == 0 {
                    Seq::empty()
                } else {
                    " pv"@ + line_text(self.pv@.take(i as int))
                }),
            decreases self.pv@.len() - i,
        {
            text.append(" ");
            text.append(self.pv[i].to_usi_owned().as_str());
            proof {
                assert(self.pv@.take(i as int + 1).drop_last() =~= self.pv@.take(i as int));
                assert(text@ =~= head + (" pv"@ + line_text(self.pv@.take(i as int + 1))));
            }
            i += 1;
        }
        assert(self.pv@.take(self.pv@.len() as int) =~= self.pv@);
        text
    }
}

/// The rate is whole nodes to the second, rounded down; none where no time has
/// passed.
pub proof fn law_the_rate_is_nodes_to_the_second(nodes: u64, ns: int)
    ensures
        ns == 0 ==> rate(nodes, ns) == 0,
        ns > 0 ==> rate(nodes, ns) * ns <= nodes * 1_000_000_000 < (rate(nodes, ns) + 1) * ns,
{
    if ns > 0 {
        let total = nodes * 1_000_000_000;
        vstd::arithmetic::div_mod::lemma_fundamental_div_mod(total, ns);
        vstd::arithmetic::div_mod::lemma_mod_bound(total, ns);
        assert(rate(nodes, ns) * ns == ns * (total / ns)) by (nonlinear_arith)
            requires
                rate(nodes, ns) == total / ns,
        ;
        assert((rate(nodes, ns) + 1) * ns == ns * (total / ns) + ns) by (nonlinear_arith)
            requires
                rate(nodes, ns) == total / ns,
        ;
    }
}

/// A score that means mate is told as the plies to it, with a minus if it is
/// against the side to move; any other in centipawns.
pub proof fn law_a_mate_is_told_in_plies(score: int)
    requires
        -32_000 <= score <= 32_000,
    ensures
        -31_872 < score < 31_872 ==> usi_score(score) == " score cp "@ + decimal(score),
        score >= 31_872 ==> usi_score(score) == " score mate "@ + decimal(32_000 - score),
        score <= -31_872 ==> usi_score(score) == " score mate "@ + decimal(-(32_000 + score)),
{
}

/// The line is told move by move, in order, however long it is; and nothing is
/// said of a line without moves.
pub proof fn law_a_line_is_told_move_by_move(line: Seq<Move>, mv: Move)
    ensures
        usi_line(Seq::empty()) == Seq::<char>::empty(),
        usi_line(seq![mv]) == " pv"@ + " "@ + usi_text(mv),
        line.len() > 0 ==> usi_line(line.push(mv)) == usi_line(line) + " "@ + usi_text(mv),
{
    assert(seq![mv].drop_last() =~= Seq::empty());
    assert(line_text(seq![mv]) =~= " "@ + usi_text(mv)) by {
        assert(line_text(Seq::empty()) =~= Seq::<char>::empty());
    }
    assert(usi_line(seq![mv]) =~= " pv"@ + " "@ + usi_text(mv));
    assert(line.push(mv).drop_last() =~= line);
    if line.len() > 0 {
        assert(usi_line(line.push(mv)) =~= usi_line(line) + " "@ + usi_text(mv));
    }
}

/// An `info` line tells the depth, the deepest ply, the time in milliseconds, the
/// nodes, the rate, how full the table is where there is one, the score and the
/// line, each behind its name and in this order.
pub proof fn law_an_info_line_names_what_it_tells(report: Report, ns: int)
    ensures
        ({
            let head = "info depth "@ + decimal(report.depth) + " seldepth "@ + decimal(
                report.seldepth,
            ) + " time "@ + decimal(ns / 1_000_000) + " nodes "@ + decimal(report.nodes as int)
                + " nps "@ + decimal(rate(report.nodes, ns));
            let tail = usi_score(report.score) + usi_line(report.line);
            &&& report.hashfull matches Some(permille) ==> info_text(report, ns) == head
                + " hashfull "@ + decimal(permille) + tail
            &&& report.hashfull is None ==> info_text(report, ns) == head + tail
        }),
{
    let head = "info depth "@ + decimal(report.depth) + " seldepth "@ + decimal(report.seldepth)
        + " time "@ + decimal(ns / 1_000_000) + " nodes "@ + decimal(report.nodes as int) + " nps "@
        + decimal(rate(report.nodes, ns));
    let tail = usi_score(report.score) + usi_line(report.line);
    if let Some(permille) = report.hashfull {
        assert(info_text(report, ns) =~= head + " hashfull "@ + decimal(permille) + tail);
    } else {
        assert(info_text(report, ns) =~= head + tail);
    }
}

} // verus!
