//! What the engine says.

use vstd::prelude::*;

use crate::position::usi_text;
use crate::search::job::{BestMove, InfoSink};
use crate::text::texts;

verus! {

/// How an answer is spelled.
pub open spec fn bestmove_text(best: BestMove) -> Seq<char> {
    match best {
        BestMove::Resign => "bestmove resign"@,
        BestMove::Play { mv, ponder, .. } => match ponder {
            None => "bestmove "@ + usi_text(mv),
            Some(reply) => "bestmove "@ + usi_text(mv) + " ponder "@ + usi_text(reply),
        },
    }
}

/// The lines that the engine says, in order, for whoever writes them out.
#[derive(Clone, Debug)]
pub struct Output {
    lines: Vec<String>,
}

impl View for Output {
    type V = Seq<Seq<char>>;

    closed spec fn view(&self) -> Seq<Seq<char>> {
        texts(self.lines@)
    }
}

impl Output {
    /// Nothing was said.
    pub fn new() -> (r: Output)
        ensures
            r@ == Seq::<Seq<char>>::empty(),
    {
        let r = Output { lines: Vec::new() };
        assert(r@ =~= Seq::empty());
        r
    }

    /// Says one line.
    pub fn line(&mut self, line: &str)
        ensures
            final(self)@ == old(self)@.push(line@),
    {
        self.lines.push(line.to_owned());
        assert(self@ =~= old(self)@.push(line@));
    }

    /// Says something that a GUI shows in its log.
    pub fn info_string(&mut self, message: &str)
        ensures
            final(self)@ == old(self)@.push("info string "@ + message@),
    {
        let mut text = "info string ".to_owned();
        text.append(message);
        self.line(text.as_str());
    }

    /// Says the answer of a search.
    pub fn bestmove(&mut self, best: BestMove)
        ensures
            final(self)@ == old(self)@.push(bestmove_text(best)),
    {
        let text = match best {
            BestMove::Resign => "bestmove resign".to_owned(),
            BestMove::Play { mv, ponder, .. } => {
                let mut text = "bestmove ".to_owned();
                text.append(mv.to_usi_owned().as_str());
                if let Some(reply) = ponder {
                    text.append(" ponder ");
                    text.append(reply.to_usi_owned().as_str());
                }
                text
            },
        };
        self.line(text.as_str());
    }

    /// What was said.
    pub fn lines(&self) -> (r: &Vec<String>)
        ensures
            texts(r@) == self@,
    {
        &self.lines
    }
}

impl InfoSink for Output {
    open spec fn keeps(&self) -> bool {
        true
    }

    open spec fn kept(&self) -> Seq<Seq<char>> {
        self@
    }

    fn info(&mut self, line: &str) {
        self.line(line);
    }
}

impl Default for Output {
    fn default() -> (r: Output)
        ensures
            r@ == Seq::<Seq<char>>::empty(),
    {
        Output::new()
    }
}

/// An answer is one line that names the move, and behind it the reply that is
/// expected, if one is; or that resigns.
pub proof fn law_an_answer_names_its_move(best: BestMove)
    ensures
        best == BestMove::Resign ==> bestmove_text(best) == "bestmove resign"@,
        best matches BestMove::Play { mv, ponder: None, .. } ==> bestmove_text(best) == "bestmove "@
            + usi_text(mv),
        best matches BestMove::Play { mv, ponder: Some(reply), .. } ==> bestmove_text(best)
            == "bestmove "@ + usi_text(mv) + " ponder "@ + usi_text(reply),
{
}

} // verus!
