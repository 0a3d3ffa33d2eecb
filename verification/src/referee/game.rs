//! One game: its positions, its moves, and the referee that every move passes.

use vstd::prelude::*;

use crate::diagram::{
    is_start, law_a_move_conserves_the_pieces, law_the_start_is_sound, set_holds, Diagram,
};
use crate::position::{
    allowed, colored, drop_targets, kifu_text, legality, move_fault, parsed_position, read_move,
    status, targets, usi_text, PartialPosition, Placement, PositionStatus,
};
use crate::referee::inventory::{
    over_the_limit, representable, unrepresentable, UnrepresentableRoot, REPRESENTABLE,
};
use crate::referee::moves::{attacked, in_check, move_from_usi};
use crate::referee::repetition::{
    first_place, key_of, law_the_first_place_is_the_first, law_three_occurrences_are_three_places,
    occurrences, occurs_thrice, RepetitionIndex,
};
use crate::referee::types::{
    MoveError, Outcome, Ply, PlyRecord, PromotionChoice, UsiMoveError, UsiPositionError,
    UsiPositionFault,
};
use crate::search::game::joined;
use crate::shogi::{Color, Move, Piece, PieceKind, Square};
use crate::text::{same_text, split_words, texts, words};

verus! {

/// A game as it stands: the positions that occurred, the moves between them, and
/// how it ended, if it did.
#[verifier::ext_equal]
pub struct Match {
    pub positions: Seq<Placement>,
    pub moves: Seq<PlyRecord>,
    pub outcome: Option<Outcome>,
}

/// The keys of a game's positions.
pub open spec fn keys_of(positions: Seq<Placement>) -> Seq<Seq<char>> {
    positions.map(|i: int, p: Placement| key_of(p))
}

/// What is recorded of a move that is played in `p`.
pub open spec fn ply_of(p: Placement, mv: Move) -> PlyRecord {
    let next = p.played(mv).diagram;
    PlyRecord {
        mv,
        gave_check: attacked(next, next.side),
        kifu: match kifu_text(p, mv) {
            Some(text) => text,
            None => usi_text(mv),
        },
    }
}

/// Whether `color` moved since the position `from`, and checked with every one
/// of its moves.
pub open spec fn checked_throughout(
    positions: Seq<Placement>,
    moves: Seq<PlyRecord>,
    from: int,
    color: Color,
) -> bool {
    &&& exists|i: int|
        from <= i < moves.len() && (#[trigger] positions[i]).diagram.side == color
    &&& forall|i: int|
        from <= i < moves.len() && (#[trigger] positions[i]).diagram.side == color
            ==> moves[i].gave_check
}

/// How a game that has repeated the position `first` ends: a side that alone
/// checked with each of its moves since then loses; otherwise it is a draw.
pub open spec fn classified(
    positions: Seq<Placement>,
    moves: Seq<PlyRecord>,
    first: int,
) -> Outcome {
    let black = checked_throughout(positions, moves, first, Color::Black);
    let white = checked_throughout(positions, moves, first, Color::White);
    if black && !white {
        Outcome::PerpetualCheck { loser: Color::Black }
    } else if white && !black {
        Outcome::PerpetualCheck { loser: Color::White }
    } else {
        Outcome::Repetition
    }
}

/// How the last position of a game ends it, if it does. A mate comes before a
/// repetition; a position that is none ends nothing.
pub open spec fn adjudged(positions: Seq<Placement>, moves: Seq<PlyRecord>) -> Option<Outcome> {
    let keys = keys_of(positions);
    match status(positions.last().diagram) {
        PositionStatus::BlackWins => Some(Outcome::Checkmate { winner: Color::Black }),
        PositionStatus::WhiteWins => Some(Outcome::Checkmate { winner: Color::White }),
        PositionStatus::Invalid => None,
        _ => if occurrences(keys, keys.last(), keys.len() as int) >= 4 {
            Some(classified(positions, moves, first_place(keys, keys.last(), 0)->0))
        } else {
            None
        },
    }
}

impl Match {
    /// A game that has not begun.
    pub open spec fn opened(initial: Placement) -> Match {
        Match { positions: seq![initial], moves: Seq::empty(), outcome: None }
    }

    /// The position that the game has reached.
    pub open spec fn now(self) -> Placement {
        self.positions.last()
    }

    /// The game with one move more, adjudicated.
    pub open spec fn after(self, mv: Move) -> Match {
        let positions = self.positions.push(self.now().played(mv));
        let moves = self.moves.push(ply_of(self.now(), mv));
        Match { positions, moves, outcome: adjudged(positions, moves) }
    }

    /// The game with its last move taken back, and what it led to undone.
    pub open spec fn undone(self) -> Match {
        Match {
            positions: self.positions.drop_last(),
            moves: self.moves.drop_last(),
            outcome: None,
        }
    }

    /// Whether the positions are those that the moves led to, one more than
    /// there are moves, and every move was legal where it was played.
    pub open spec fn consistent(self) -> bool {
        &&& self.positions.len() == self.moves.len() + 1
        &&& forall|i: int|
            0 <= i < self.moves.len() ==> {
                &&& (#[trigger] self.moves[i]) == ply_of(self.positions[i], self.moves[i].mv)
                &&& self.positions[i + 1] == self.positions[i].played(self.moves[i].mv)
                &&& legality(self.positions[i].diagram, self.moves[i].mv) is Ok
            }
    }

    /// The game after `loser` resigned; one that is over stays as it ended.
    pub open spec fn resigned(self, loser: Color) -> Match {
        if self.outcome is Some {
            self
        } else {
            Match { outcome: Some(Outcome::Resignation { loser }), ..self }
        }
    }

    /// What is left of the squares that a move may go to: none once the game is
    /// over.
    pub open spec fn offered(self, squares: Seq<Square>) -> Seq<Square> {
        if self.outcome is Some {
            Seq::empty()
        } else {
            squares
        }
    }

    /// Why `mv` is refused here, if it is.
    pub open spec fn refuses(self, mv: Move) -> Option<MoveError> {
        if self.outcome is Some {
            Some(MoveError::GameOver)
        } else {
            match legality(self.now().diagram, mv) {
                Ok(()) => None,
                Err(kind) => Some(MoveError::Illegal(kind)),
            }
        }
    }
}

/// Whether the position at `i` is the last one again: the same pieces on the same
/// squares and in the same hands, with the same side to move.
pub open spec fn stood(positions: Seq<Placement>, i: int) -> bool {
    &&& positions[i].diagram.squares == positions.last().diagram.squares
    &&& positions[i].diagram.black == positions.last().diagram.black
    &&& positions[i].diagram.white == positions.last().diagram.white
    &&& positions[i].diagram.side == positions.last().diagram.side
}

/// Whether the last position has stood three times before.
pub open spec fn stands_for_the_fourth_time(positions: Seq<Placement>) -> bool {
    exists|a: int, b: int, c: int|
        0 <= a < b < c < positions.len() - 1 && #[trigger] stood(positions, a) && #[trigger] stood(
            positions,
            b,
        ) && #[trigger] stood(positions, c)
}

/// Whether the move that was made at `i` was `color`'s.
pub open spec fn was_moved_by(positions: Seq<Placement>, i: int, color: Color) -> bool {
    positions[i].diagram.side == color
}

/// Whether the position at `i` is where the last position first stood.
pub open spec fn stood_first(positions: Seq<Placement>, i: int) -> bool {
    &&& 0 <= i < positions.len()
    &&& stood(positions, i)
    &&& forall|k: int| 0 <= k < i ==> !#[trigger] stood(positions, k)
}

/// Whether `color` moved since the position at `f`, and left the opponent's king
/// attacked with every one of its moves.
pub open spec fn checked_since(positions: Seq<Placement>, f: int, color: Color) -> bool {
    &&& exists|i: int| f <= i < positions.len() - 1 && #[trigger] was_moved_by(positions, i, color)
    &&& forall|i: int|
        f <= i < positions.len() - 1 && #[trigger] was_moved_by(positions, i, color) ==> attacked(
            positions[i + 1].diagram,
            color.other(),
        )
}

/// Whether `color` moved since the last position first stood, and left the
/// opponent's king attacked with every one of its moves.
pub open spec fn checked_all_along(game: Match, color: Color) -> bool {
    exists|f: int| #[trigger]
        stood_first(game.positions, f) && checked_since(game.positions, f, color)
}

/// Whether the game ended as the rules say, if it did: a side that is mated is
/// the one to move and has lost; a repetition is the fourth occurrence of a
/// position, which a side loses if it alone gave check all along, and which is
/// drawn otherwise.
pub open spec fn rightly_ended(game: Match) -> bool {
    match game.outcome {
        Some(Outcome::Checkmate { winner }) => winner != game.now().diagram.side,
        Some(Outcome::PerpetualCheck { loser }) => {
            &&& stands_for_the_fourth_time(game.positions)
            &&& checked_all_along(game, loser)
            &&& !checked_all_along(game, loser.other())
        },
        Some(Outcome::Repetition) => {
            &&& stands_for_the_fourth_time(game.positions)
            &&& checked_all_along(game, Color::Black) == checked_all_along(game, Color::White)
        },
        _ => true,
    }
}

/// The game that goes on with the moves that words from the `i`th on spell.
pub open spec fn replayed(
    game: Match,
    tokens: Seq<Seq<char>>,
    i: int,
) -> Result<Match, UsiPositionFault>
    decreases tokens.len() - i,
{
    if i >= tokens.len() {
        Ok(game)
    } else {
        match read_move(tokens[i]) {
            None => Err(
                UsiPositionFault::Move {
                    index: i,
                    token: tokens[i],
                    source: UsiMoveError::Syntax(move_fault(tokens[i])),
                },
            ),
            Some(read) => {
                let mv = colored(read, game.now().diagram.side);
                match game.refuses(mv) {
                    Some(error) => Err(
                        UsiPositionFault::Move {
                            index: i,
                            token: tokens[i],
                            source: UsiMoveError::Refused(error),
                        },
                    ),
                    None => replayed(game.after(mv), tokens, i + 1),
                }
            },
        }
    }
}

/// How many words come before `moves`, from the `from`th on.
pub open spec fn before_moves(tokens: Seq<Seq<char>>, from: int) -> int
    decreases tokens.len() - from,
{
    if from >= tokens.len() || tokens[from] == "moves"@ {
        from
    } else {
        before_moves(tokens, from + 1)
    }
}

/// The game that the argument of a `position` command describes.
pub open spec fn described(args: Seq<char>) -> Result<Match, UsiPositionFault> {
    let tokens = words(args);
    let n = before_moves(tokens, 0);
    if tokens.len() == 0 {
        Err(UsiPositionFault::Empty)
    } else {
        match parsed_position(joined(tokens.take(n))) {
            Err(error) => Err(UsiPositionFault::Root(error)),
            Ok(initial) => match over_the_limit(initial.diagram) {
                Some(kind) => Err(
                    UsiPositionFault::Unrepresentable(
                        UnrepresentableRoot { kind, count: initial.diagram.census(kind) as u32 },
                    ),
                ),
                None => if n >= tokens.len() {
                    Ok(Match::opened(initial))
                } else {
                    replayed(Match::opened(initial), tokens.skip(n + 1), 0)
                },
            },
        }
    }
}

/// A game with its referee.
pub struct Game {
    positions: Vec<PartialPosition>,
    moves: Vec<Ply>,
    repetition: RepetitionIndex,
    outcome: Option<Outcome>,
}

impl View for Game {
    type V = Match;

    closed spec fn view(&self) -> Match {
        Match {
            positions: self.positions@.map(|i: int, p: PartialPosition| p@),
            moves: self.moves@.map(|i: int, ply: Ply| ply@),
            outcome: self.outcome,
        }
    }
}

impl Clone for Game {
    fn clone(&self) -> (r: Game)
        ensures
            r@ == self@,
            r.well_formed() == self.well_formed(),
    {
        let r = Game {
            positions: self.positions.clone(),
            moves: self.moves.clone(),
            repetition: self.repetition.clone(),
            outcome: self.outcome,
        };
        assert forall|i: int| 0 <= i < self.positions@.len() implies (#[trigger] r.positions@[i])@
            == self.positions@[i]@ by {
            assert(cloned::<PartialPosition>(self.positions@[i], r.positions@[i]));
        }
        assert forall|i: int| 0 <= i < self.moves@.len() implies (#[trigger] r.moves@[i])@
            == self.moves@[i]@ by {
            assert(cloned::<Ply>(self.moves@[i], r.moves@[i]));
        }
        assert(r@ =~= self@);
        r
    }
}

impl Game {
    /// Whether the game is consistent, its index is that of its positions, and
    /// none of them holds more than a game can.
    pub closed spec fn well_formed(self) -> bool {
        &&& self@.consistent()
        &&& self.repetition@ == keys_of(self@.positions)
        &&& forall|i: int|
            0 <= i < self@.positions.len() ==> {
                &&& representable((#[trigger] self@.positions[i]).diagram)
                &&& self@.positions[i].diagram.squares.len() == 81
            }
        &&& rightly_ended(self@)
    }

    /// A game from the starting position.
    pub fn startpos() -> (r: Game)
        ensures
            r.well_formed(),
            r@ == Match::opened(r@.now()),
            is_start(r@.now().diagram),
            r@.now().ply == 1,
            r@.now().last_move is None,
    {
        let start = PartialPosition::startpos();
        proof {
            law_the_start_is_sound(start@.diagram);
            lemma_set_is_representable(start@.diagram);
        }
        Game::opened(start)
    }

    fn opened(initial: PartialPosition) -> (r: Game)
        requires
            representable(initial@.diagram),
        ensures
            r.well_formed(),
            r@ == Match::opened(initial@),
    {
        initial.is_a_position();
        let repetition = RepetitionIndex::new(&initial);
        let ghost p = initial@;
        let mut positions: Vec<PartialPosition> = Vec::new();
        positions.push(initial);
        let r = Game { positions, moves: Vec::new(), repetition, outcome: None };
        proof {
            assert(r@.positions =~= seq![p]);
            assert(r@.moves =~= Seq::empty());
            assert(keys_of(r@.positions) =~= seq![key_of(p)]);
        }
        r
    }

    /// A game from `initial`, or the kind of which it holds more than a game
    /// can.
    pub fn from_position(initial: PartialPosition) -> (r: Result<Game, UnrepresentableRoot>)
        ensures
            match r {
                Ok(game) => representable(initial@.diagram) && over_the_limit(
                    initial@.diagram,
                ) is None && game.well_formed() && game@ == Match::opened(initial@),
                Err(root) => over_the_limit(initial@.diagram) == Some(root.kind) && root.count
                    == initial@.diagram.census(root.kind) && !representable(initial@.diagram),
            },
    {
        match unrepresentable(&initial) {
            Some(root) => Err(root),
            None => Ok(Game::opened(initial)),
        }
    }

    /// Reads the argument of a `position` command: `startpos [moves …]` or
    /// `sfen <board> <side> <hands> [<ply>] [moves …]`. Every move is refereed;
    /// one after the end of the game is refused.
    pub fn from_usi_position(args: &str) -> (r: Result<Game, UsiPositionError>)
        ensures
            match r {
                Ok(game) => game.well_formed() && described(args@) == Ok::<Match, UsiPositionFault>(
                    game@,
                ),
                Err(error) => described(args@) == Err::<Match, UsiPositionFault>(error@),
            },
    {
        let tokens = split_words(args);
        let ghost all = texts(tokens@);
        if tokens.len() == 0 {
            return Err(UsiPositionError::Empty);
        }
        let mut root = String::new();
        let mut n: usize = 0;
        assert(all.take(0) =~= Seq::empty());
        assert(root@ =~= joined(all.take(0)));
        while n < tokens.len() && !same_text(tokens[n].as_str(), "moves")
            invariant
                n <= tokens@.len(),
                all == texts(tokens@),
                root@ == joined(all.take(n as int)),
                before_moves(all, 0) == before_moves(all, n as int),
            decreases tokens@.len() - n,
        {
            proof {
                assert(all[n as int] == tokens@[n as int]@);
                assert(all.take(n as int + 1).drop_last() =~= all.take(n as int));
            }
            if n > 0 {
                root.append(" ");
            }
            root.append(tokens[n].as_str());
            proof {
                assert(root@ =~= joined(all.take(n as int + 1)));
            }
            n += 1;
        }
        proof {
            if n < tokens@.len() {
                assert(all[n as int] == tokens@[n as int]@);
            }
        }
        assert(before_moves(all, 0) == n);
        let initial = match PartialPosition::from_usi(root.as_str()) {
            Ok(initial) => initial,
            Err(error) => return Err(UsiPositionError::Root(error)),
        };
        let mut game = match Game::from_position(initial) {
            Ok(game) => game,
            Err(root) => return Err(UsiPositionError::Unrepresentable(root)),
        };
        if n == tokens.len() {
            return Ok(game);
        }
        let ghost rest = all.skip(n + 1);
        let mut i: usize = 0;
        while i < tokens.len() - n - 1
            invariant
                n < tokens@.len(),
                i <= tokens@.len() - n - 1,
                all == texts(tokens@),
                rest == all.skip(n + 1),
                game.well_formed(),
                described(args@) == replayed(game@, rest, i as int),
            decreases tokens@.len() - n - 1 - i,
        {
            assert(rest[i as int] == tokens@[n + 1 + i]@);
            match game.play_usi(tokens[n + 1 + i].as_str()) {
                Ok(_) => {},
                Err(source) => {
                    let token = tokens[n + 1 + i].as_str().to_owned();
                    return Err(UsiPositionError::Move { index: i, token, source });
                },
            }
            i += 1;
        }
        Ok(game)
    }

    /// Reads one move of USI notation, for the side to move, and plays it.
    pub fn play_usi(&mut self, token: &str) -> (r: Result<Move, UsiMoveError>)
        requires
            old(self).well_formed(),
        ensures
            final(self).well_formed(),
            match r {
                Ok(mv) => {
                    &&& read_move(token@) is Some
                    &&& mv == colored(read_move(token@)->0, old(self)@.now().diagram.side)
                    &&& old(self)@.refuses(mv) is None
                    &&& final(self)@ == old(self)@.after(mv)
                },
                Err(error) => {
                    &&& final(self)@ == old(self)@
                    &&& match read_move(token@) {
                        None => error == UsiMoveError::Syntax(move_fault(token@)),
                        Some(read) => old(self)@.refuses(
                            colored(read, old(self)@.now().diagram.side),
                        ) matches Some(refusal) && error == UsiMoveError::Refused(refusal),
                    }
                },
            },
    {
        let mv = match move_from_usi(token, self.side_to_move()) {
            Ok(mv) => mv,
            Err(error) => return Err(UsiMoveError::Syntax(error)),
        };
        match self.play(mv) {
            Ok(()) => Ok(mv),
            Err(error) => Err(UsiMoveError::Refused(error)),
        }
    }

    /// The position that the game has reached.
    pub fn position(&self) -> (r: &PartialPosition)
        requires
            self.well_formed(),
        ensures
            r@ == self@.now(),
    {
        &self.positions[self.positions.len() - 1]
    }

    pub fn side_to_move(&self) -> (r: Color)
        requires
            self.well_formed(),
        ensures
            r == self@.now().diagram.side,
    {
        self.position().side_to_move()
    }

    /// How many moves were played.
    pub fn ply(&self) -> (r: usize)
        ensures
            r == self@.moves.len(),
    {
        self.moves.len()
    }

    /// Every move played, in order.
    pub fn moves(&self) -> (r: &Vec<Ply>)
        ensures
            r@.map(|i: int, ply: Ply| ply@) == self@.moves,
    {
        &self.moves
    }

    /// Every position that occurred, in order.
    pub fn positions(&self) -> (r: &Vec<PartialPosition>)
        requires
            self.well_formed(),
        ensures
            r@.map(|i: int, p: PartialPosition| p@) == self@.positions,
            r@.len() == self@.moves.len() + 1,
    {
        &self.positions
    }

    /// The move played last.
    pub fn last_move(&self) -> (r: Option<Move>)
        ensures
            r == (if self@.moves.len() == 0 {
                None
            } else {
                Some(self@.moves.last().mv)
            }),
    {
        if self.moves.len() == 0 {
            None
        } else {
            Some(self.moves[self.moves.len() - 1].mv)
        }
    }

    /// How the game ended, if it did.
    pub fn outcome(&self) -> (r: Option<Outcome>)
        ensures
            r == self@.outcome,
    {
        self.outcome
    }

    /// Whether the side to move is in check.
    pub fn in_check(&self) -> (r: bool)
        requires
            self.well_formed(),
        ensures
            r == attacked(self@.now().diagram, self@.now().diagram.side),
    {
        in_check(self.position(), self.side_to_move())
    }

    /// The squares of the kings that are attacked, Black's first.
    pub fn check_squares(&self) -> (r: Vec<Square>)
        requires
            self.well_formed(),
        ensures
            r@ == attacked_kings(self@.now().diagram),
    {
        let position = self.position();
        let mut squares: Vec<Square> = Vec::new();
        if in_check(position, Color::Black) {
            if let Some(square) = position.king_position(Color::Black) {
                squares.push(square);
            }
        }
        if in_check(position, Color::White) {
            if let Some(square) = position.king_position(Color::White) {
                squares.push(square);
            }
        }
        assert(squares@ =~= attacked_kings(self@.now().diagram));
        squares
    }

    /// The squares that the piece on `from` may move to, promoting or not. A
    /// game that is over offers none.
    pub fn destinations(&self, from: Square) -> (r: Vec<Square>)
        requires
            self.well_formed(),
        ensures
            r@ == (if self@.outcome is Some {
                Seq::empty()
            } else {
                targets(self@.now().diagram, from)
            }),
            r@ == self@.offered(targets(self@.now().diagram, from)),
    {
        if self.outcome.is_some() {
            return Vec::new();
        }
        self.position().targets(from)
    }

    /// The squares that `piece` may be dropped on. A game that is over offers
    /// none.
    pub fn drop_destinations(&self, piece: Piece) -> (r: Vec<Square>)
        requires
            self.well_formed(),
        ensures
            r@ == (if self@.outcome is Some {
                Seq::empty()
            } else {
                drop_targets(self@.now().diagram, piece)
            }),
            r@ == self@.offered(drop_targets(self@.now().diagram, piece)),
    {
        if self.outcome.is_some() {
            return Vec::new();
        }
        self.position().drop_targets(piece)
    }

    /// Which promotion choices a move from `from` to `to` offers, as the rules
    /// allow the move with promotion and without.
    pub fn promotion(&self, from: Square, to: Square) -> (r: PromotionChoice)
        requires
            self.well_formed(),
        ensures
            r == choice(
                allowed(self@.now().diagram, Move::Normal { from, to, promote: false }),
                allowed(self@.now().diagram, Move::Normal { from, to, promote: true }),
            ),
    {
        let position = self.position();
        let plain = position.is_allowed(Move::Normal { from, to, promote: false });
        let promoted = position.is_allowed(Move::Normal { from, to, promote: true });
        match (plain, promoted) {
            (true, true) => PromotionChoice::Optional,
            (false, true) => PromotionChoice::Forced,
            _ => PromotionChoice::Never,
        }
    }

    /// The referee. Every move comes here: it is played and the game adjudicated,
    /// or it is refused and the game left as it was.
    pub fn play(&mut self, mv: Move) -> (r: Result<(), MoveError>)
        requires
            old(self).well_formed(),
        ensures
            final(self).well_formed(),
            match r {
                Ok(()) => {
                    &&& old(self)@.refuses(mv) is None
                    &&& final(self)@ == old(self)@.after(mv)
                    &&& final(self)@.outcome matches Some(Outcome::Checkmate { winner }) ==> winner
                        == old(self)@.now().diagram.side
                    &&& final(self)@.outcome is None && stands_for_the_fourth_time(
                        final(self)@.positions,
                    ) ==> status(final(self)@.now().diagram) == PositionStatus::Invalid
                },
                Err(error) => old(self)@.refuses(mv) == Some(error) && final(self)@ == old(self)@,
            },
    {
        if self.outcome.is_some() {
            return Err(MoveError::GameOver);
        }
        match self.position().is_legal(mv) {
            Ok(()) => {},
            Err(kind) => return Err(MoveError::Illegal(kind)),
        }
        let ghost before = self@;
        let ghost p = self@.now();
        self.position().is_a_position();
        proof {
            assert(forall|kind: PieceKind| kind.droppable() ==> #[trigger] p.diagram.census(kind) <= 255);
            lemma_stays_representable(p.diagram, mv);
        }
        let next = self.position().after(mv);
        let kifu = match self.position().kifu(mv) {
            Some(text) => text,
            None => mv.to_usi_owned(),
        };
        let gave_check = in_check(&next, next.side_to_move());
        next.is_a_position();
        let count: usize = self.repetition.push(&next);
        let ghost key = key_of(next@);
        self.positions.push(next);
        self.moves.push(Ply { mv, gave_check, kifu });
        proof {
            assert(self@.positions =~= before.positions.push(p.played(mv)));
            assert(self@.moves =~= before.moves.push(ply_of(p, mv)));
            assert(keys_of(self@.positions) =~= keys_of(before.positions).push(key));
            assert forall|i: int| 0 <= i < self@.positions.len() implies {
                &&& representable((#[trigger] self@.positions[i]).diagram)
                &&& self@.positions[i].diagram.squares.len() == 81
            } by {
                if i < before.positions.len() {
                    assert(self@.positions[i] == before.positions[i]);
                }
            }
            assert forall|i: int| 0 <= i < self@.moves.len() implies {
                &&& (#[trigger] self@.moves[i]) == ply_of(self@.positions[i], self@.moves[i].mv)
                &&& self@.positions[i + 1] == self@.positions[i].played(self@.moves[i].mv)
                &&& legality(self@.positions[i].diagram, self@.moves[i].mv) is Ok
            } by {
                if i < before.moves.len() {
                    assert(self@.moves[i] == before.moves[i]);
                    assert(self@.positions[i] == before.positions[i]);
                    assert(self@.positions[i + 1] == before.positions[i + 1]);
                }
            }
        }
        let adjudged = match self.position().status() {
            PositionStatus::BlackWins => Some(Outcome::Checkmate { winner: Color::Black }),
            PositionStatus::WhiteWins => Some(Outcome::Checkmate { winner: Color::White }),
            PositionStatus::Invalid => None,
            _ => {
                if count >= 4 {
                    match self.repetition.first_occurrence() {
                        Some(first) => {
                            proof {
                                law_the_first_place_is_the_first(
                                    self.repetition@,
                                    self.repetition@.last(),
                                    0,
                                );
                            }
                            Some(classify_repetition(&self.positions, &self.moves, first))
                        },
                        None => None,
                    }
                } else {
                    None
                }
            },
        };
        self.outcome = adjudged;
        assert(self@ =~= before.after(mv));
        proof {
            let positions = self@.positions;
            let keys = keys_of(positions);
            assert forall|i: int| 0 <= i < positions.len() implies (#[trigger] keys[i] == keys.last()
                <==> stood(positions, i)) by {
                assert(keys[i] == key_of(positions[i]));
                assert(keys.last() == key_of(positions.last()));
            }
            assert(keys_tell(positions, keys));
            lemma_rightly_ended(self@);
        }
        Ok(())
    }

    /// Takes the last move back, and with it how the game ended.
    pub fn undo(&mut self) -> (r: Option<Move>)
        requires
            old(self).well_formed(),
        ensures
            final(self).well_formed(),
            match r {
                Some(mv) => old(self)@.moves.len() > 0 && mv == old(self)@.moves.last().mv
                    && final(self)@ == old(self)@.undone(),
                None => old(self)@.moves.len() == 0 && final(self)@ == old(self)@,
            },
    {
        let ghost before = self@;
        match self.moves.pop() {
            None => None,
            Some(ply) => {
                let _ = self.positions.pop();
                self.repetition.pop();
                self.outcome = None;
                proof {
                    assert(self@.positions =~= before.positions.drop_last());
                    assert(self@.moves =~= before.moves.drop_last());
                    assert(keys_of(self@.positions) =~= keys_of(before.positions).drop_last());
                    assert forall|i: int| 0 <= i < self@.moves.len() implies {
                        &&& (#[trigger] self@.moves[i]) == ply_of(
                            self@.positions[i],
                            self@.moves[i].mv,
                        )
                        &&& self@.positions[i + 1] == self@.positions[i].played(self@.moves[i].mv)
                        &&& legality(self@.positions[i].diagram, self@.moves[i].mv) is Ok
                    } by {
                        assert(self@.moves[i] == before.moves[i]);
                    }
                    assert forall|i: int| 0 <= i < self@.positions.len() implies {
                        &&& representable((#[trigger] self@.positions[i]).diagram)
                        &&& self@.positions[i].diagram.squares.len() == 81
                    } by {
                        assert(self@.positions[i] == before.positions[i]);
                    }
                }
                Some(ply.mv)
            },
        }
    }

    /// Ends the game by `loser`'s resignation, unless it is over.
    pub fn resign(&mut self, loser: Color)
        requires
            old(self).well_formed(),
        ensures
            final(self).well_formed(),
            final(self)@ == (if old(self)@.outcome is Some {
                old(self)@
            } else {
                Match { outcome: Some(Outcome::Resignation { loser }), ..old(self)@ }
            }),
            final(self)@ == old(self)@.resigned(loser),
    {
        if self.outcome.is_none() {
            self.outcome = Some(Outcome::Resignation { loser });
        }
    }
}

/// Tells a draw by repetition from a perpetual check, for a game that has
/// repeated the position `first`.
pub fn classify_repetition(
    positions: &Vec<PartialPosition>,
    moves: &Vec<Ply>,
    first: usize,
) -> (r: Outcome)
    requires
        moves@.len() <= positions@.len(),
        first <= moves@.len(),
    ensures
        r == classified(
            positions@.map(|i: int, p: PartialPosition| p@),
            moves@.map(|i: int, ply: Ply| ply@),
            first as int,
        ),
{
    let ghost seen = positions@.map(|i: int, p: PartialPosition| p@);
    let ghost played = moves@.map(|i: int, ply: Ply| ply@);
    let mut black_moved = false;
    let mut white_moved = false;
    let mut black_checks = true;
    let mut white_checks = true;
    let mut i: usize = first;
    while i < moves.len()
        invariant
            first <= i <= moves@.len(),
            moves@.len() <= positions@.len(),
            seen == positions@.map(|i: int, p: PartialPosition| p@),
            played == moves@.map(|i: int, ply: Ply| ply@),
            black_moved == exists|k: int|
                first <= k < i && (#[trigger] seen[k]).diagram.side == Color::Black,
            white_moved == exists|k: int|
                first <= k < i && (#[trigger] seen[k]).diagram.side == Color::White,
            black_checks == forall|k: int|
                first <= k < i && (#[trigger] seen[k]).diagram.side == Color::Black
                    ==> played[k].gave_check,
            white_checks == forall|k: int|
                first <= k < i && (#[trigger] seen[k]).diagram.side == Color::White
                    ==> played[k].gave_check,
        decreases moves@.len() - i,
    {
        let gave_check = moves[i].gave_check;
        assert(seen[i as int] == positions@[i as int]@);
        assert(played[i as int].gave_check == gave_check);
        match positions[i].side_to_move() {
            Color::Black => {
                black_moved = true;
                black_checks = black_checks && gave_check;
            },
            Color::White => {
                white_moved = true;
                white_checks = white_checks && gave_check;
            },
        }
        i += 1;
    }
    let black = black_moved && black_checks;
    let white = white_moved && white_checks;
    assert(black == checked_throughout(seen, played, first as int, Color::Black));
    assert(white == checked_throughout(seen, played, first as int, Color::White));
    match (black, white) {
        (true, false) => Outcome::PerpetualCheck { loser: Color::Black },
        (false, true) => Outcome::PerpetualCheck { loser: Color::White },
        _ => Outcome::Repetition,
    }
}

proof fn lemma_set_is_representable(d: Diagram)
    requires
        d.fits_a_set(),
    ensures
        representable(d),
{
    assert forall|kind: PieceKind| kind.droppable() implies #[trigger] d.census(kind)
        <= REPRESENTABLE by {
        assert(d.census(kind) <= set_holds(kind));
    }
}

/// No move leads past what a game can hold.
proof fn lemma_stays_representable(d: Diagram, mv: Move)
    requires
        d.squares.len() == 81,
        d.can_play(mv),
        representable(d),
    ensures
        representable(d.played(mv)),
{
    assert forall|kind: PieceKind| kind.droppable() implies #[trigger] d.played(mv).census(kind)
        <= REPRESENTABLE by {
        if let Move::Normal { to, .. } = mv {
            if let Some(victim) = d.at(to) {
                assert(d.census(victim.kind.base()) <= REPRESENTABLE);
            }
        }
        law_a_move_conserves_the_pieces(d, mv, kind);
        assert(d.census(kind) <= REPRESENTABLE);
    }
}

/// Whether the keys of the positions tell which of them is the last one again.
spec fn keys_tell(positions: Seq<Placement>, keys: Seq<Seq<char>>) -> bool {
    &&& keys.len() == positions.len()
    &&& forall|i: int|
        0 <= i < positions.len() ==> (#[trigger] keys[i] == keys.last() <==> stood(positions, i))
}

proof fn lemma_fourth_time(positions: Seq<Placement>, keys: Seq<Seq<char>>)
    requires
        positions.len() > 0,
        keys_tell(positions, keys),
    ensures
        occurrences(keys, keys.last(), keys.len() as int) >= 4 <==> stands_for_the_fourth_time(
            positions,
        ),
{
    let last = positions.len() - 1;
    law_three_occurrences_are_three_places(keys, keys.last(), last);
    assert(occurrences(keys, keys.last(), keys.len() as int) == occurrences(
        keys,
        keys.last(),
        last,
    ) + 1);
    if occurs_thrice(keys, keys.last(), last) {
        let (a, b, c) = choose|a: int, b: int, c: int|
            0 <= a < b < c < last && #[trigger] keys[a] == keys.last() && #[trigger] keys[b]
                == keys.last() && #[trigger] keys[c] == keys.last();
        assert(stood(positions, a) && stood(positions, b) && stood(positions, c));
    }
    if stands_for_the_fourth_time(positions) {
        let (a, b, c) = choose|a: int, b: int, c: int|
            0 <= a < b < c < positions.len() - 1 && #[trigger] stood(positions, a)
                && #[trigger] stood(positions, b) && #[trigger] stood(positions, c);
        assert(keys[a] == keys.last() && keys[b] == keys.last() && keys[c] == keys.last());
    }
}

proof fn lemma_checked_since(game: Match, f: int, color: Color)
    requires
        game.consistent(),
        0 <= f,
    ensures
        checked_throughout(game.positions, game.moves, f, color) == checked_since(
            game.positions,
            f,
            color,
        ),
{
    let (positions, moves) = (game.positions, game.moves);
    assert forall|i: int| 0 <= i < moves.len() && #[trigger] was_moved_by(positions, i, color) implies (
    moves[i].gave_check == attacked(positions[i + 1].diagram, color.other())) by {
        assert(moves[i] == ply_of(positions[i], moves[i].mv));
    }
    if checked_throughout(positions, moves, f, color) {
        let i = choose|i: int|
            f <= i < moves.len() && (#[trigger] positions[i]).diagram.side == color;
        assert(was_moved_by(positions, i, color));
        assert forall|i: int|
            f <= i < positions.len() - 1 && #[trigger] was_moved_by(positions, i, color) implies
            attacked(positions[i + 1].diagram, color.other()) by {
            assert(positions[i].diagram.side == color);
        }
    }
    if checked_since(positions, f, color) {
        let i = choose|i: int|
            f <= i < positions.len() - 1 && #[trigger] was_moved_by(positions, i, color);
        assert(positions[i].diagram.side == color);
        assert forall|i: int|
            f <= i < moves.len() && (#[trigger] positions[i]).diagram.side == color implies
            moves[i].gave_check by {
            assert(was_moved_by(positions, i, color));
        }
    }
}

/// A game that was adjudicated by the keys of its positions ended as the rules
/// say, where the keys tell positions apart.
#[verifier::rlimit(30)]
proof fn lemma_rightly_ended(game: Match)
    requires
        game.consistent(),
        game.outcome == adjudged(game.positions, game.moves),
        status(game.now().diagram) == PositionStatus::BlackWins ==> game.now().diagram.side
            == Color::White,
        status(game.now().diagram) == PositionStatus::WhiteWins ==> game.now().diagram.side
            == Color::Black,
        keys_tell(game.positions, keys_of(game.positions)),
    ensures
        rightly_ended(game),
        game.outcome is None && stands_for_the_fourth_time(game.positions) ==> status(
            game.now().diagram,
        ) == PositionStatus::Invalid,
{
    let positions = game.positions;
    let keys = keys_of(positions);
    lemma_fourth_time(positions, keys);
    law_the_first_place_is_the_first(keys, keys.last(), 0);
    assert(keys[positions.len() - 1] == keys.last());
    let first = first_place(keys, keys.last(), 0)->0;
    assert(stood_first(positions, first)) by {
        assert(keys[first] == keys.last());
        assert forall|k: int| 0 <= k < first implies !#[trigger] stood(positions, k) by {
            assert(keys[k] != keys.last());
        }
    }
    assert forall|f: int| #[trigger] stood_first(positions, f) implies f == first by {
        if f < first {
            assert(stood(positions, f));
        } else if first < f {
            assert(stood(positions, first));
        }
    }
    lemma_checked_since(game, first, Color::Black);
    lemma_checked_since(game, first, Color::White);
    assert(checked_all_along(game, Color::Black) == checked_since(positions, first, Color::Black));
    assert(checked_all_along(game, Color::White) == checked_since(positions, first, Color::White));
}

/// Every game ended as the rules say, if it did: whoever was mated lost, the
/// fourth occurrence of a position ended the game, and a side that alone had
/// given check all along lost by it.
pub proof fn law_games_end_as_the_rules_say(game: Game)
    requires
        game.well_formed(),
    ensures
        game@.outcome matches Some(Outcome::Checkmate { winner }) ==> winner
            == game@.now().diagram.side.other(),
        game@.outcome matches Some(Outcome::PerpetualCheck { loser }) ==> {
            &&& stands_for_the_fourth_time(game@.positions)
            &&& checked_all_along(game@, loser)
            &&& !checked_all_along(game@, loser.other())
        },
        game@.outcome == Some(Outcome::Repetition) ==> {
            &&& stands_for_the_fourth_time(game@.positions)
            &&& checked_all_along(game@, Color::Black) == checked_all_along(game@, Color::White)
        },
{
}

/// The side that made the move is the one that it mates for: where the status of
/// a position names as winner the side that is not to move, a move that ends the
/// game with a mate is a win for the side that made it. The status and the
/// outcome name the same winner, and only a mate is told as one.
pub proof fn law_the_mating_side_wins(game: Match, mv: Move)
    ensures
        ({
            let next = game.now().played(mv).diagram;
            &&& game.after(mv).outcome == Some(Outcome::Checkmate { winner: Color::Black })
                <==> status(next) == PositionStatus::BlackWins
            &&& game.after(mv).outcome == Some(Outcome::Checkmate { winner: Color::White })
                <==> status(next) == PositionStatus::WhiteWins
            &&& (status(next) == PositionStatus::BlackWins ==> next.side == Color::White) && (
            status(next) == PositionStatus::WhiteWins ==> next.side == Color::Black) ==> (
            game.after(mv).outcome matches Some(Outcome::Checkmate { winner }) ==> winner
                == game.now().diagram.side)
        }),
{
}

/// A move adds one position and one entry to the record: the position that it
/// leads to, with the other side to move, and whether it left that side's king
/// attacked. What came before stays.
pub proof fn law_a_move_adds_one_position(game: Match, mv: Move)
    requires
        game.positions.len() > 0,
    ensures
        game.after(mv).positions.drop_last() == game.positions,
        game.after(mv).moves.drop_last() == game.moves,
        game.after(mv).now().diagram == game.now().diagram.played(mv),
        game.after(mv).now().diagram.side == game.now().diagram.side.other(),
        game.after(mv).now().last_move == Some(mv),
        game.after(mv).moves.last().mv == mv,
        game.after(mv).moves.last().gave_check == attacked(
            game.after(mv).now().diagram,
            game.now().diagram.side.other(),
        ),
        kifu_text(game.now(), mv) matches Some(text) ==> game.after(mv).moves.last().kifu == text,
        kifu_text(game.now(), mv) is None ==> game.after(mv).moves.last().kifu == usi_text(mv),
{
    assert(game.after(mv).positions.drop_last() =~= game.positions);
    assert(game.after(mv).moves.drop_last() =~= game.moves);
}

/// Moves that are replayed are played one by one, each as the side to move's and
/// each where it was not refused; a fault names the first that could not be.
pub proof fn law_moves_are_replayed_one_by_one(game: Match, tokens: Seq<Seq<char>>, i: int)
    requires
        0 <= i <= tokens.len(),
    ensures
        match replayed(game, tokens, i) {
            Ok(end) => {
                &&& end.moves.len() == game.moves.len() + tokens.len() - i
                &&& forall|k: int| i <= k < tokens.len() ==> read_move(#[trigger] tokens[k]) is Some
                &&& end.moves.take(game.moves.len() as int) == game.moves
                &&& end.positions.len() == game.positions.len() + tokens.len() - i
                &&& end.positions.take(game.positions.len() as int) == game.positions
                &&& game.consistent() ==> end.consistent()
                &&& forall|k: int|
                    i <= k < tokens.len() && game.consistent() ==> (
                    #[trigger] end.moves[game.moves.len() + k - i]).mv == colored(
                        read_move(tokens[k])->0,
                        end.positions[game.moves.len() + k - i].diagram.side,
                    )
            },
            Err(UsiPositionFault::Move { index, token, source }) => {
                &&& i <= index < tokens.len()
                &&& token == tokens[index]
                &&& replayed(game, tokens.take(index), i) is Ok
                &&& source is Syntax <==> read_move(token) is None
                &&& replayed(game, tokens.take(index), i) matches Ok(end) && source
                    matches UsiMoveError::Refused(error) ==> end.refuses(
                    colored(read_move(token)->0, end.now().diagram.side),
                ) == Some(error)
            },
            Err(_) => false,
        },
    decreases tokens.len() - i,
{
    if i < tokens.len() {
        if let Some(read) = read_move(tokens[i]) {
            let mv = colored(read, game.now().diagram.side);
            if game.refuses(mv) is None {
                law_moves_are_replayed_one_by_one(game.after(mv), tokens, i + 1);
                let next = game.after(mv);
                if game.consistent() {
                    law_play_keeps_the_game_consistent(game, mv);
                }
                match replayed(next, tokens, i + 1) {
                    Ok(end) => {
                        assert(end.moves.take(game.moves.len() as int) =~= end.moves.take(
                            next.moves.len() as int,
                        ).take(game.moves.len() as int));
                        assert(next.moves.take(game.moves.len() as int) =~= game.moves);
                        assert(end.positions.take(game.positions.len() as int)
                            =~= end.positions.take(next.positions.len() as int).take(
                            game.positions.len() as int,
                        ));
                        assert(next.positions.take(game.positions.len() as int) =~= game.positions);
                        assert(end.moves[game.moves.len() as int] == next.moves.last()) by {
                            assert(end.moves.take(next.moves.len() as int)[game.moves.len() as int]
                                == next.moves[game.moves.len() as int]);
                        }
                        if game.consistent() {
                            assert(end.positions[game.moves.len() as int]
                                == next.positions[game.moves.len() as int]) by {
                                assert(end.positions.take(
                                    next.positions.len() as int,
                                )[game.moves.len() as int] == next.positions[game.moves.len() as int]);
                            }
                            assert forall|k: int| i <= k < tokens.len() implies (
                            #[trigger] end.moves[game.moves.len() + k - i]).mv == colored(
                                read_move(tokens[k])->0,
                                end.positions[game.moves.len() + k - i].diagram.side,
                            ) by {
                                if k > i {
                                    assert(end.moves[next.moves.len() + k - (i + 1)].mv == colored(
                                        read_move(tokens[k])->0,
                                        end.positions[next.moves.len() + k - (i + 1)].diagram.side,
                                    ));
                                }
                            }
                        }
                    },
                    Err(UsiPositionFault::Move { index, .. }) => {
                        assert(tokens.take(index)[i] == tokens[i]);
                        assert(replayed(game, tokens.take(index), i) == replayed(
                            next,
                            tokens.take(index),
                            i + 1,
                        ));
                    },
                    Err(_) => {},
                }
            } else {
                assert(replayed(game, tokens.take(i), i) == Ok::<Match, UsiPositionFault>(game));
            }
        } else {
            assert(replayed(game, tokens.take(i), i) == Ok::<Match, UsiPositionFault>(game));
        }
    }
}

/// Taking back a move that was just played leaves the game as it was.
pub proof fn law_undo_reverses_play(game: Match, mv: Move)
    requires
        game.positions.len() == game.moves.len() + 1,
        game.refuses(mv) is None,
    ensures
        game.after(mv).undone() == game,
{
    assert(game.after(mv).undone().positions =~= game.positions);
    assert(game.after(mv).undone().moves =~= game.moves);
}

/// A game that is over refuses every move, and one that is not refuses exactly
/// those that the rules forbid.
pub proof fn law_a_finished_game_refuses_every_move(game: Match, mv: Move)
    ensures
        game.outcome is Some ==> game.refuses(mv) == Some(MoveError::GameOver),
        game.outcome is None ==> (game.refuses(mv) is None <==> legality(
            game.now().diagram,
            mv,
        ) is Ok),
{
}

/// A mate is a mate, however often the position has occurred.
pub proof fn law_mate_comes_before_repetition(game: Match, mv: Move)
    requires
        status(game.now().played(mv).diagram) == PositionStatus::BlackWins || status(
            game.now().played(mv).diagram,
        ) == PositionStatus::WhiteWins,
    ensures
        game.after(mv).outcome matches Some(Outcome::Checkmate { .. }),
{
}

/// Playing a move that is not refused keeps the game consistent.
pub proof fn law_play_keeps_the_game_consistent(game: Match, mv: Move)
    requires
        game.consistent(),
        game.refuses(mv) is None,
    ensures
        game.after(mv).consistent(),
{
    let after = game.after(mv);
    assert forall|i: int| 0 <= i < after.moves.len() implies {
        &&& (#[trigger] after.moves[i]) == ply_of(after.positions[i], after.moves[i].mv)
        &&& after.positions[i + 1] == after.positions[i].played(after.moves[i].mv)
        &&& legality(after.positions[i].diagram, after.moves[i].mv) is Ok
    } by {
        if i < game.moves.len() {
            assert(after.moves[i] == game.moves[i]);
        }
    }
}

/// The squares of the kings that are attacked, Black's first.
pub open spec fn attacked_kings(d: Diagram) -> Seq<Square> {
    let black = if attacked(d, Color::Black) && d.black_king is Some {
        seq![d.black_king->0]
    } else {
        Seq::empty()
    };
    let white = if attacked(d, Color::White) && d.white_king is Some {
        seq![d.white_king->0]
    } else {
        Seq::empty()
    };
    black + white
}

/// Which promotion choices there are where the move is allowed without promotion
/// or with it.
pub open spec fn choice(plain: bool, promoted: bool) -> PromotionChoice {
    if plain && promoted {
        PromotionChoice::Optional
    } else if promoted {
        PromotionChoice::Forced
    } else {
        PromotionChoice::Never
    }
}

/// The attacked kings are told, each where it stands, and no other square is.
pub proof fn law_a_square_is_told_if_its_king_is_attacked(d: Diagram, square: Square)
    ensures
        attacked_kings(d).contains(square) <==> {
            ||| attacked(d, Color::Black) && d.black_king == Some(square)
            ||| attacked(d, Color::White) && d.white_king == Some(square)
        },
        attacked_kings(d).len() <= 2,
{
    let black = if attacked(d, Color::Black) && d.black_king is Some {
        seq![d.black_king->0]
    } else {
        Seq::empty()
    };
    let white = if attacked(d, Color::White) && d.white_king is Some {
        seq![d.white_king->0]
    } else {
        Seq::empty()
    };
    let all = black + white;
    assert(attacked_kings(d) == all);
    if attacked(d, Color::Black) && d.black_king == Some(square) {
        assert(all[0] == square);
    }
    if attacked(d, Color::White) && d.white_king == Some(square) {
        assert(all[black.len() as int] == square);
    }
}

/// There is a choice where the rules allow the move both ways, promotion is forced
/// where they allow it no other way, and there is none where they do not allow it
/// with promotion.
pub proof fn law_a_choice_is_what_the_rules_leave(plain: bool, promoted: bool)
    ensures
        choice(plain, promoted) == PromotionChoice::Optional <==> plain && promoted,
        choice(plain, promoted) == PromotionChoice::Forced <==> !plain && promoted,
        choice(plain, promoted) == PromotionChoice::Never <==> !promoted,
{
}

/// The root of a description is all that comes before the first `moves`, and what
/// comes behind it are the moves; without that word the game has not begun. A
/// description without words is empty, and one whose root holds more of a kind
/// than a game can is refused.
pub proof fn law_a_description_is_a_root_and_moves(args: Seq<char>)
    ensures
        ({
            let tokens = words(args);
            let n = before_moves(tokens, 0);
            let parsed = parsed_position(joined(tokens.take(n)));
            &&& 0 <= n <= tokens.len()
            &&& forall|k: int| 0 <= k < n ==> #[trigger] tokens[k] != "moves"@
            &&& n < tokens.len() ==> tokens[n] == "moves"@
            &&& described(args) == Err::<Match, UsiPositionFault>(UsiPositionFault::Empty)
                <==> tokens.len() == 0
            &&& tokens.len() > 0 && parsed is Err ==> described(args) == Err::<
                Match,
                UsiPositionFault,
            >(UsiPositionFault::Root(parsed->Err_0))
            &&& tokens.len() > 0 && parsed is Ok ==> {
                let initial = parsed->Ok_0;
                let begun = Match {
                    positions: seq![initial],
                    moves: Seq::empty(),
                    outcome: None,
                };
                &&& over_the_limit(initial.diagram) is None && n == tokens.len() ==> described(args)
                    == Ok::<Match, UsiPositionFault>(begun)
                &&& over_the_limit(initial.diagram) is None && n < tokens.len() ==> described(args)
                    == replayed(begun, tokens.skip(n + 1), 0)
                &&& over_the_limit(initial.diagram) matches Some(kind) ==> described(args) == Err::<
                    Match,
                    UsiPositionFault,
                >(
                    UsiPositionFault::Unrepresentable(
                        UnrepresentableRoot { kind, count: initial.diagram.census(kind) as u32 },
                    ),
                )
            }
        }),
{
    let tokens = words(args);
    lemma_before_moves(tokens, 0);
    let n = before_moves(tokens, 0);
    if tokens.len() > 0 && n < tokens.len() {
        if let Ok(initial) = parsed_position(joined(tokens.take(n))) {
            law_moves_are_replayed_one_by_one(Match::opened(initial), tokens.skip(n + 1), 0);
        }
    }
}

proof fn lemma_before_moves(tokens: Seq<Seq<char>>, from: int)
    requires
        0 <= from <= tokens.len(),
    ensures
        from <= before_moves(tokens, from) <= tokens.len(),
        forall|k: int|
            from <= k < before_moves(tokens, from) ==> #[trigger] tokens[k] != "moves"@,
        before_moves(tokens, from) < tokens.len() ==> tokens[before_moves(tokens, from)] == "moves"@,
    decreases tokens.len() - from,
{
    if from < tokens.len() && tokens[from] != "moves"@ {
        lemma_before_moves(tokens, from + 1);
    }
}

/// Whoever resigns is the loser, and the game is over with it; a game that is over
/// cannot be resigned any more. The position stays.
pub proof fn law_whoever_resigns_has_lost(game: Match, loser: Color, other: Color)
    ensures
        game.outcome is None ==> game.resigned(loser).outcome == Some(
            Outcome::Resignation { loser },
        ),
        game.outcome is Some ==> game.resigned(loser) == game,
        game.resigned(loser).positions == game.positions,
        game.resigned(loser).moves == game.moves,
        game.resigned(loser).resigned(other) == game.resigned(loser),
{
}

/// A game that is over offers no squares, and one that is not offers all that the
/// rules do.
pub proof fn law_a_finished_game_offers_nothing(game: Match, squares: Seq<Square>, loser: Color)
    ensures
        game.outcome is None ==> game.offered(squares) == squares,
        game.outcome is Some ==> game.offered(squares).len() == 0,
        game.resigned(loser).offered(squares).len() == 0,
{
}

/// A repetition is lost by the side that alone checked with every move of its own
/// since the position first stood, and is drawn if neither did or both; a side
/// that did not move since then did not.
pub proof fn law_the_one_who_checked_loses(
    positions: Seq<Placement>,
    moves: Seq<PlyRecord>,
    first: int,
    color: Color,
)
    ensures
        classified(positions, moves, first) == (Outcome::PerpetualCheck { loser: color })
            <==> checked_throughout(positions, moves, first, color) && !checked_throughout(
            positions,
            moves,
            first,
            color.other(),
        ),
        classified(positions, moves, first) == Outcome::Repetition <==> checked_throughout(
            positions,
            moves,
            first,
            Color::Black,
        ) == checked_throughout(positions, moves, first, Color::White),
        checked_throughout(positions, moves, first, color) ==> first < moves.len(),
        checked_throughout(positions, moves, first, color) ==> forall|i: int|
            first <= i < moves.len() && (#[trigger] positions[i]).diagram.side == color
                ==> moves[i].gave_check,
{
}

} // verus!
