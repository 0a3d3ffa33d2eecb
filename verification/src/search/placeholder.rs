//! A searcher that does not search.

use vstd::prelude::*;

use crate::board::legal_moves;
use crate::search::job::{BestMove, InfoSink, SearchJob};

verus! {

/// Answers with the first legal move, without any search.
#[derive(Clone, Copy, Debug, Default)]
pub struct PlaceholderSearcher;

impl PlaceholderSearcher {
    /// The first legal move in the order of generation, or else resignation. It
    /// tells `out` that there was no search.
    pub fn search<S, O: InfoSink>(&mut self, job: &SearchJob<S>, out: &mut O) -> (r: BestMove)
        requires
            job.game.well_formed(),
        ensures
            r == (if legal_moves(job.game@.now().diagram).len() == 0 {
                BestMove::Resign
            } else {
                BestMove::Play {
                    mv: legal_moves(job.game@.now().diagram)[0],
                    ponder: None,
                    completed_depth: 0,
                }
            }),
            old(out).keeps() ==> {
                &&& final(out).keeps()
                &&& final(out).kept() == old(out).kept().push(
                    "info string rinsai has no search yet (E0 step 1): playing a legal move"@,
                )
            },
    {
        let moves = job.game.position().legal_moves();
        let best = if moves.len() == 0 {
            BestMove::Resign
        } else {
            BestMove::Play { mv: moves[0], ponder: None, completed_depth: 0 }
        };
        out.info("info string rinsai has no search yet (E0 step 1): playing a legal move");
        best
    }
}

} // verus!
