//! Scores and search depths.

use vstd::prelude::*;
use vstd::std_specs::ops::{AddSpecImpl, NegSpecImpl, SubSpecImpl};

use crate::text::{decimal, push_integer};

verus! {

/// The deepest ply that a search ever reaches, quiescence counted.
pub const MAX_PLY: usize = 128;

/// A search depth in whole plies. Quiescence runs at negative depth.
pub type Depth = i32;

/// An evaluation in centipawns, from the point of view of the side to move.
#[derive(Clone, Copy, Debug, PartialEq, Eq, PartialOrd, Ord, Hash, Structural)]
pub struct Score(pub i32);

/// The lowest absolute value that still means mate.
pub const MATE_FLOOR: i32 = 31_872;

impl Score {
    /// A dead-equal position, and the value of a draw by repetition.
    pub fn zero() -> (r: Score)
        ensures
            r.0 == 0,
    {
        Score(0)
    }

    /// Mate delivered at the root.
    pub fn mate() -> (r: Score)
        ensures
            r.0 == 32_000,
    {
        Score(32_000)
    }

    /// The outer bound of a search window, just past every mate.
    pub fn infinite() -> (r: Score)
        ensures
            r.0 == 32_001,
    {
        Score(32_001)
    }

    /// A game won because the opponent checked its way into a repetition. It
    /// lies between the evaluations and the mates.
    pub fn repetition() -> (r: Score)
        ensures
            r.0 == 30_000,
    {
        Score(30_000)
    }

    /// Whether the score means mate. The outer bound of a window does too.
    pub open spec fn means_mate(self) -> bool {
        self.0 >= MATE_FLOOR || self.0 <= -MATE_FLOOR
    }

    /// Plies to mate: positive if the side to move mates, negative if it is
    /// mated, `None` for any other score.
    pub open spec fn plies_to_mate(self) -> Option<int> {
        if self.0 >= MATE_FLOOR {
            Some(32_000 - self.0)
        } else if self.0 <= -MATE_FLOOR {
            Some(-32_000 - self.0)
        } else {
            None
        }
    }

    /// A score in centipawns, where a pawn is 100.
    pub fn cp(centipawns: i32) -> (r: Score)
        ensures
            r.0 == centipawns,
    {
        Score(centipawns)
    }

    pub fn get(self) -> (r: i32)
        ensures
            r == self.0,
    {
        self.0
    }

    /// Mate delivered by the side to move, `ply` plies from the root.
    pub fn mate_in(ply: usize) -> (r: Score)
        requires
            ply <= MAX_PLY,
        ensures
            r.0 == 32_000 - ply,
    {
        Score(32_000 - ply as i32)
    }

    /// Mate delivered against the side to move, `ply` plies from the root.
    pub fn mated_in(ply: usize) -> (r: Score)
        requires
            ply <= MAX_PLY,
        ensures
            r.0 == -32_000 + ply,
    {
        Score(-32_000 + ply as i32)
    }

    /// Whether the score means mate.
    pub fn is_mate(self) -> (r: bool)
        ensures
            r == self.means_mate(),
    {
        self.0 >= MATE_FLOOR || self.0 <= -MATE_FLOOR
    }

    /// Plies to mate, if the score means mate.
    pub fn mate_plies(self) -> (r: Option<i32>)
        ensures
            match r {
                Some(plies) => self.plies_to_mate() == Some(plies as int),
                None => self.plies_to_mate() is None,
            },
    {
        if self.0 >= MATE_FLOOR {
            Some(32_000 - self.0)
        } else if self.0 <= -MATE_FLOOR {
            Some(-32_000 - self.0)
        } else {
            None
        }
    }

    /// The nearest score that means neither mate nor repetition.
    pub fn clamp_to_eval(self) -> (r: Score)
        ensures
            r.0 == (if self.0 > 29_999 {
                29_999
            } else if self.0 < -29_999 {
                -29_999
            } else {
                self.0 as int
            }),
            r.0 == nearest_eval(self.0 as int),
    {
        let limit: i32 = 29_999;
        if self.0 > limit {
            Score(limit)
        } else if self.0 < -limit {
            Score(-limit)
        } else {
            self
        }
    }
}

impl core::ops::Neg for Score {
    type Output = Score;

    fn neg(self) -> (r: Score) {
        Score(-self.0)
    }
}

impl NegSpecImpl for Score {
    open spec fn obeys_neg_spec() -> bool {
        true
    }

    open spec fn neg_req(self) -> bool {
        self.0 != i32::MIN
    }

    open spec fn neg_spec(self) -> Score {
        Score((-self.0) as i32)
    }
}

impl core::ops::Add<i32> for Score {
    type Output = Score;

    fn add(self, rhs: i32) -> (r: Score) {
        Score(self.0 + rhs)
    }
}

impl AddSpecImpl<i32> for Score {
    open spec fn obeys_add_spec() -> bool {
        true
    }

    open spec fn add_req(self, rhs: i32) -> bool {
        i32::MIN <= self.0 + rhs <= i32::MAX
    }

    open spec fn add_spec(self, rhs: i32) -> Score {
        Score((self.0 + rhs) as i32)
    }
}

impl core::ops::Sub<i32> for Score {
    type Output = Score;

    fn sub(self, rhs: i32) -> (r: Score) {
        Score(self.0 - rhs)
    }
}

impl SubSpecImpl<i32> for Score {
    open spec fn obeys_sub_spec() -> bool {
        true
    }

    open spec fn sub_req(self, rhs: i32) -> bool {
        i32::MIN <= self.0 - rhs <= i32::MAX
    }

    open spec fn sub_spec(self, rhs: i32) -> Score {
        Score((self.0 - rhs) as i32)
    }
}

/// What a score reads as.
pub open spec fn score_text(score: Score) -> Seq<char> {
    if score.0 == 32_001 {
        "Score::INFINITE"@
    } else if score.0 == 30_000 {
        "Score(repetition won)"@
    } else if score.0 == -30_000 {
        "Score(repetition lost)"@
    } else {
        match score.plies_to_mate() {
            Some(plies) => "Score(mate "@ + decimal(plies) + ")"@,
            None => "Score("@ + decimal(score.0 as int) + " cp)"@,
        }
    }
}

impl Score {
    /// The score in words, as what it means rather than as a number.
    pub fn describe(self) -> (r: String)
        ensures
            r@ == score_text(self),
    {
        if self.0 == 32_001 {
            return "Score::INFINITE".to_owned();
        }
        if self.0 == 30_000 {
            return "Score(repetition won)".to_owned();
        }
        if self.0 == -30_000 {
            return "Score(repetition lost)".to_owned();
        }
        match self.mate_plies() {
            Some(plies) => {
                let mut text = "Score(mate ".to_owned();
                push_integer(&mut text, plies as i64);
                text.append(")");
                text
            },
            None => {
                let mut text = "Score(".to_owned();
                push_integer(&mut text, self.0 as i64);
                text.append(" cp)");
                text
            },
        }
    }
}

/// Every mate lies strictly within the outer bounds of a window, and past every
/// repetition and every evaluation: the bands do not overlap.
pub proof fn law_the_bands_do_not_overlap(ply: int, eval: Score)
    requires
        0 <= ply <= MAX_PLY,
        -29_999 <= eval.0 <= 29_999,
    ensures
        -32_001 < -32_000 + ply && 32_000 - ply < 32_001,
        Score((32_000 - ply) as i32).means_mate(),
        Score((-32_000 + ply) as i32).means_mate(),
        !Score(30_000).means_mate(),
        !Score(-30_000i32).means_mate(),
        !eval.means_mate(),
        eval.0 < 30_000 < 32_000 - ply,
        -32_000 + ply < -30_000 < eval.0,
{
}

/// The plies to a mate are the plies that the score was made of, from either
/// side, and a nearer mate scores higher.
pub proof fn law_mate_plies_round_trip(ply: int, farther: int)
    requires
        0 <= ply < farther <= MAX_PLY,
    ensures
        Score((32_000 - ply) as i32).plies_to_mate() == Some(ply),
        Score((-32_000 + ply) as i32).plies_to_mate() == Some(-ply),
        32_000 - ply > 32_000 - farther,
        -32_000 + ply < -32_000 + farther,
{
}

/// Seen from the other side, a mate is the same mate against oneself.
pub proof fn law_negation_turns_a_mate_round(score: Score)
    requires
        -32_001 <= score.0 <= 32_001,
    ensures
        Score((-score.0) as i32).means_mate() == score.means_mate(),
        score.plies_to_mate() matches Some(plies) ==> Score((-score.0) as i32).plies_to_mate()
            == Some(-plies),
{
}

/// The nearest score that means neither mate nor repetition.
pub open spec fn nearest_eval(score: int) -> int {
    if score > 29_999 {
        29_999
    } else if score < -29_999 {
        -29_999
    } else {
        score
    }
}

/// No score that means neither mate nor repetition is nearer: a score that is one
/// stays as it is, and any other goes no farther than it has to.
pub proof fn law_no_evaluation_is_nearer(score: int, eval: int)
    requires
        -30_000 < eval < 30_000,
    ensures
        -30_000 < nearest_eval(score) < 30_000,
        -30_000 < score < 30_000 ==> nearest_eval(score) == score,
        score >= eval ==> eval <= nearest_eval(score) <= score,
        score <= eval ==> score <= nearest_eval(score) <= eval,
{
}

} // verus!
