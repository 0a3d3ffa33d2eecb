//! A game in progress: its record, the board that it has reached, and the USI
//! text that describes it.

use vstd::prelude::*;

use crate::board::{in_check, legal_moves, Board};
use crate::diagram::{is_start, law_the_start_is_sound, set_holds, Diagram};
use crate::position::{
    color_move, colored, parse_error_fields, parse_move, parsed_position, read_move, usi_text,
    PartialPosition, Placement,
};
use crate::referee::inventory::{
    count_kings, kind_name, kings, law_a_set_is_counted_out, lemma_counted_alone, name_of,
    over_a_set, over_inventory,
};
use crate::search::moves::is_legal;
use crate::search::repetition::HistoryEntry;
use crate::shogi::{Color, Move, PieceKind};
use crate::text::{
    digits, parse_unsigned, push_number, same_text, split_words, texts, unsigned, words,
};

verus! {

/// The position that a run of moves leads to.
pub open spec fn reached(from: Placement, moves: Seq<Move>) -> Placement
    decreases moves.len(),
{
    if moves.len() == 0 {
        from
    } else {
        reached(from, moves.drop_last()).played(moves.last())
    }
}

/// The record of a game: the position that it began from and the moves that
/// were played.
#[verifier::ext_equal]
pub struct Record {
    pub initial: Placement,
    pub moves: Seq<Move>,
}

impl Record {
    /// A game with no move played.
    pub open spec fn opened(initial: Placement) -> Record {
        Record { initial, moves: Seq::empty() }
    }

    /// The game with one move more.
    pub open spec fn with(self, mv: Move) -> Record {
        Record { moves: self.moves.push(mv), ..self }
    }

    /// The position after the first `n` moves.
    pub open spec fn at(self, n: int) -> Placement {
        reached(self.initial, self.moves.take(n))
    }

    /// The position that the game has reached.
    pub open spec fn now(self) -> Placement {
        reached(self.initial, self.moves)
    }

    /// One entry for each position reached, the first one included.
    pub open spec fn history(self) -> Seq<HistoryEntry> {
        Seq::new(
            (self.moves.len() + 1) as nat,
            |n: int| HistoryEntry::entry(self.at(n).diagram),
        )
    }

    /// Whether the game began from a sound position and every move was legal.
    pub open spec fn lawful(self) -> bool {
        &&& self.initial.diagram.sound()
        &&& forall|n: int|
            0 <= n < self.moves.len() ==> legal_moves((#[trigger] self.at(n)).diagram).contains(
                self.moves[n],
            )
    }
}

/// What is wrong with the text of a position.
#[verifier::ext_equal]
pub enum PositionFault {
    MissingRoot,
    BadRoot { detail: Seq<char> },
    UnexpectedToken { index: int, token: Seq<char> },
    MoveSyntax { index: int, token: Seq<char> },
    IllegalMove { index: int, token: Seq<char> },
}

/// Why text describes no position.
#[derive(Clone, Debug, PartialEq, Eq)]
pub enum PositionError {
    /// There is no text.
    MissingRoot,
    /// The position that the game begins from could not be read, or is none.
    BadRoot { detail: String },
    /// Something else stands where `moves` was expected.
    UnexpectedToken { index: usize, token: String },
    /// A move is no USI notation.
    MoveSyntax { index: usize, token: String },
    /// A move is not legal where it is played.
    IllegalMove { index: usize, token: String },
}

impl View for PositionError {
    type V = PositionFault;

    open spec fn view(&self) -> PositionFault {
        match *self {
            PositionError::MissingRoot => PositionFault::MissingRoot,
            PositionError::BadRoot { detail } => PositionFault::BadRoot { detail: detail@ },
            PositionError::UnexpectedToken { index, token } => PositionFault::UnexpectedToken {
                index: index as int,
                token: token@,
            },
            PositionError::MoveSyntax { index, token } => PositionFault::MoveSyntax {
                index: index as int,
                token: token@,
            },
            PositionError::IllegalMove { index, token } => PositionFault::IllegalMove {
                index: index as int,
                token: token@,
            },
        }
    }
}

/// What a fault reads as.
pub open spec fn fault_text(fault: PositionFault) -> Seq<char> {
    match fault {
        PositionFault::MissingRoot => "expected `startpos` or `sfen …`"@,
        PositionFault::BadRoot { detail } => "bad root position: "@ + detail,
        PositionFault::UnexpectedToken { index, token } => "expected `moves`, found `"@ + token
            + "` at token "@ + digits(index as nat),
        PositionFault::MoveSyntax { index, token } => "move "@ + digits(index as nat) + " `"@ + token
            + "` is not USI move notation"@,
        PositionFault::IllegalMove { index, token } => "move "@ + digits(index as nat) + " `"@
            + token + "` is not legal in this position"@,
    }
}

impl PositionError {
    /// The error in words.
    pub fn describe(&self) -> (r: String)
        ensures
            r@ == fault_text(self@),
    {
        match self {
            PositionError::MissingRoot => "expected `startpos` or `sfen …`".to_owned(),
            PositionError::BadRoot { detail } => {
                let mut text = "bad root position: ".to_owned();
                text.append(detail.as_str());
                text
            },
            PositionError::UnexpectedToken { index, token } => {
                let mut text = "expected `moves`, found `".to_owned();
                text.append(token.as_str());
                text.append("` at token ");
                push_number(&mut text, *index as u128);
                text
            },
            PositionError::MoveSyntax { index, token } => {
                let mut text = "move ".to_owned();
                push_number(&mut text, *index as u128);
                text.append(" `");
                text.append(token.as_str());
                text.append("` is not USI move notation");
                text
            },
            PositionError::IllegalMove { index, token } => {
                let mut text = "move ".to_owned();
                push_number(&mut text, *index as u128);
                text.append(" `");
                text.append(token.as_str());
                text.append("` is not legal in this position");
                text
            },
        }
    }

    /// The same error of a move, said of the move at `index`.
    fn with_index(self, index: usize) -> (r: PositionError)
        ensures
            r@ == (match self@ {
                PositionFault::MoveSyntax { token, .. } => PositionFault::MoveSyntax {
                    index: index as int,
                    token,
                },
                PositionFault::IllegalMove { token, .. } => PositionFault::IllegalMove {
                    index: index as int,
                    token,
                },
                other => other,
            }),
    {
        match self {
            PositionError::MoveSyntax { token, .. } => PositionError::MoveSyntax { index, token },
            PositionError::IllegalMove { token, .. } => PositionError::IllegalMove { index, token },
            other => other,
        }
    }
}

/// A move that is not legal where it was played.
#[derive(Clone, Copy, Debug, PartialEq, Eq, Structural)]
pub struct IllegalMove(pub Move);

impl IllegalMove {
    /// The error in words.
    pub fn describe(&self) -> (r: String)
        ensures
            r@ == "`"@ + usi_text(self.0) + "` is not legal in this position"@,
    {
        let mut text = "`".to_owned();
        text.append(self.0.to_usi_owned().as_str());
        text.append("` is not legal in this position");
        text
    }
}

pub open spec fn color_name(color: Color) -> Seq<char> {
    match color {
        Color::Black => "Black"@,
        Color::White => "White"@,
    }
}

/// What is wrong with a position that no shogi set makes up: too many of a
/// kind, or else a side with a second king.
pub open spec fn set_fault(d: Diagram) -> Option<Seq<char>> {
    match over_a_set(d) {
        Some(kind) => Some(
            digits(d.census(kind) as nat) + " "@ + kind_name(kind)
                + " on the board and in hand, but a set has "@ + digits(set_holds(kind) as nat),
        ),
        None => if kings(d.squares, Color::Black) > 1 {
            Some(
                digits(kings(d.squares, Color::Black)) + " "@ + color_name(Color::Black)
                    + " kings, but a set has one each"@,
            )
        } else if kings(d.squares, Color::White) > 1 {
            Some(
                digits(kings(d.squares, Color::White)) + " "@ + color_name(Color::White)
                    + " kings, but a set has one each"@,
            )
        } else {
            None
        },
    }
}

/// Refuses a position that no shogi set makes up. A side may be without a king.
fn check_piece_counts(partial: &PartialPosition) -> (r: Result<(), PositionError>)
    ensures
        match r {
            Ok(()) => set_fault(partial@.diagram) is None && partial@.diagram.sound(),
            Err(error) => set_fault(partial@.diagram) matches Some(detail) && error@
                == (PositionFault::BadRoot { detail }),
        },
{
    if let Some(found) = over_inventory(partial) {
        let mut detail = String::new();
        push_number(&mut detail, found.count as u128);
        detail.append(" ");
        detail.append(name_of(found.kind));
        detail.append(" on the board and in hand, but a set has ");
        push_number(&mut detail, found.total as u128);
        assert(detail@ =~= set_fault(partial@.diagram)->0);
        return Err(PositionError::BadRoot { detail });
    }
    let black: u32 = count_kings(partial, Color::Black);
    if black > 1 {
        let mut detail = String::new();
        push_number(&mut detail, black as u128);
        detail.append(" ");
        detail.append("Black");
        detail.append(" kings, but a set has one each");
        assert(detail@ =~= set_fault(partial@.diagram)->0);
        return Err(PositionError::BadRoot { detail });
    }
    let white: u32 = count_kings(partial, Color::White);
    if white > 1 {
        let mut detail = String::new();
        push_number(&mut detail, white as u128);
        detail.append(" ");
        detail.append("White");
        detail.append(" kings, but a set has one each");
        assert(detail@ =~= set_fault(partial@.diagram)->0);
        return Err(PositionError::BadRoot { detail });
    }
    partial.is_a_position();
    proof {
        lemma_counted_alone(partial@.diagram, Color::Black);
        lemma_counted_alone(partial@.diagram, Color::White);
    }
    Ok(())
}

/// How many words from `from` on come before `moves`, counting to four at most
/// with the `counted` that came before.
pub open spec fn fields_from(tokens: Seq<Seq<char>>, from: int, counted: int) -> int
    decreases tokens.len() - from,
{
    if from >= tokens.len() || counted >= 4 || tokens[from] == "moves"@ {
        counted
    } else {
        fields_from(tokens, from + 1, counted + 1)
    }
}

/// Words with a blank between each two.
pub open spec fn joined(list: Seq<Seq<char>>) -> Seq<char>
    decreases list.len(),
{
    if list.len() == 0 {
        Seq::empty()
    } else if list.len() == 1 {
        list[0]
    } else {
        joined(list.drop_last()) + " "@ + list.last()
    }
}

/// The text of the position that a game begins from, and where the words go on
/// behind it.
pub open spec fn root_of(tokens: Seq<Seq<char>>) -> Result<(Seq<char>, int), PositionFault> {
    if tokens.len() == 0 {
        Err(PositionFault::MissingRoot)
    } else if tokens[0] == "startpos"@ {
        Ok(("startpos"@, 1))
    } else if tokens[0] == "sfen"@ {
        let n = fields_from(tokens, 1, 0);
        if n < 3 {
            Err(
                PositionFault::BadRoot {
                    detail: "expected 3 or 4 SFEN fields, found "@ + digits(n as nat),
                },
            )
        } else if n == 4 && !(unsigned(tokens[4], 65535) is Some && unsigned(tokens[4], 65535)->0
            >= 1) {
            Err(
                PositionFault::BadRoot {
                    detail: "move number `"@ + tokens[4] + "` is not in 1..=65535"@,
                },
            )
        } else {
            Ok(("sfen "@ + joined(tokens.subrange(1, 1 + n)), 1 + n))
        }
    } else {
        Err(PositionFault::UnexpectedToken { index: 0, token: tokens[0] })
    }
}

/// The game that goes on with the moves that words from the `i`th on spell.
pub open spec fn replayed(record: Record, tokens: Seq<Seq<char>>, i: int) -> Result<
    Record,
    PositionFault,
>
    decreases tokens.len() - i,
{
    if i >= tokens.len() {
        Ok(record)
    } else {
        match read_move(tokens[i]) {
            None => Err(PositionFault::MoveSyntax { index: i + 1, token: tokens[i] }),
            Some(read) => {
                let d = record.now().diagram;
                let mv = colored(read, d.side);
                if legal_moves(d).contains(mv) {
                    replayed(record.with(mv), tokens, i + 1)
                } else {
                    Err(PositionFault::IllegalMove { index: i + 1, token: tokens[i] })
                }
            },
        }
    }
}

/// The game that the argument of a `position` command describes.
pub open spec fn described(args: Seq<char>) -> Result<Record, PositionFault> {
    let tokens = words(args);
    match root_of(tokens) {
        Err(fault) => Err(fault),
        Ok((source, from)) => match parsed_position(source) {
            Err(error) => Err(PositionFault::BadRoot { detail: parse_error_fields(error) }),
            Ok(initial) => match set_fault(initial.diagram) {
                Some(detail) => Err(PositionFault::BadRoot { detail }),
                None => if from >= tokens.len() {
                    Ok(Record::opened(initial))
                } else if tokens[from] == "moves"@ {
                    replayed(Record::opened(initial), tokens.skip(from + 1), 0)
                } else {
                    Err(PositionFault::UnexpectedToken { index: from, token: tokens[from] })
                },
            },
        },
    }
}

/// Splits off the text of the position that a game begins from, and returns it
/// with the place where the words go on.
fn split_root(tokens: &Vec<String>) -> (r: Result<(String, usize), PositionError>)
    ensures
        match r {
            Ok((source, from)) => root_of(texts(tokens@)) == Ok::<(Seq<char>, int), PositionFault>(
                (source@, from as int),
            ) && from <= tokens@.len(),
            Err(error) => root_of(texts(tokens@)) == Err::<(Seq<char>, int), PositionFault>(error@),
        },
{
    let ghost all = texts(tokens@);
    if tokens.len() == 0 {
        return Err(PositionError::MissingRoot);
    }
    assert(all[0] == tokens@[0]@);
    if same_text(tokens[0].as_str(), "startpos") {
        return Ok(("startpos".to_owned(), 1));
    }
    if !same_text(tokens[0].as_str(), "sfen") {
        return Err(PositionError::UnexpectedToken { index: 0, token: tokens[0].as_str().to_owned() });
    }
    let mut n: usize = 0;
    while n < 4 && n < tokens.len() - 1 && !same_text(tokens[n + 1].as_str(), "moves")
        invariant
            n <= 4,
            n < tokens@.len(),
            all == texts(tokens@),
            fields_from(all, 1, 0) == fields_from(all, n + 1, n as int),
        decreases 4 - n,
    {
        assert(all[n + 1] == tokens@[n + 1]@);
        n += 1;
    }
    proof {
        if n + 1 < tokens@.len() {
            assert(all[n + 1] == tokens@[n + 1]@);
        }
    }
    assert(fields_from(all, 1, 0) == n);
    if n < 3 {
        let mut detail = "expected 3 or 4 SFEN fields, found ".to_owned();
        push_number(&mut detail, n as u128);
        return Err(PositionError::BadRoot { detail });
    }
    if n == 4 {
        assert(all[4] == tokens@[4]@);
        let in_range = match parse_unsigned(tokens[4].as_str(), 65535) {
            Some(ply) => ply >= 1,
            None => false,
        };
        if !in_range {
            let mut detail = "move number `".to_owned();
            detail.append(tokens[4].as_str());
            detail.append("` is not in 1..=65535");
            return Err(PositionError::BadRoot { detail });
        }
    }
    let mut source = "sfen ".to_owned();
    source.append(tokens[1].as_str());
    let mut i: usize = 1;
    proof {
        assert(all[1] == tokens@[1]@);
        assert(all.subrange(1, 2) =~= seq![all[1]]);
    }
    while i < n
        invariant
            1 <= i <= n <= 4,
            n < tokens@.len(),
            all == texts(tokens@),
            source@ == "sfen "@ + joined(all.subrange(1, 1 + i)),
        decreases n - i,
    {
        source.append(" ");
        source.append(tokens[i + 1].as_str());
        proof {
            assert(all[i + 1] == tokens@[i + 1]@);
            assert(all.subrange(1, 2 + i).drop_last() =~= all.subrange(1, 1 + i));
            assert(source@ =~= "sfen "@ + joined(all.subrange(1, 2 + i)));
        }
        i += 1;
    }
    Ok((source, 1 + n))
}

/// A shogi game: the position that it began from, the moves played, and the
/// board that they lead to.
pub struct Game {
    board: Board,
    initial: PartialPosition,
    current: PartialPosition,
    moves: Vec<Move>,
    history: Vec<HistoryEntry>,
}

impl View for Game {
    type V = Record;

    closed spec fn view(&self) -> Record {
        Record { initial: self.initial@, moves: self.moves@ }
    }
}

impl Game {
    /// Whether the board, the position and the history are those of the record.
    pub closed spec fn well_formed(self) -> bool {
        &&& self@.lawful()
        &&& self.board@ == self@.now().diagram
        &&& self.current@ == self@.now()
        &&& self.history@ == self@.history()
    }

    /// A game from the starting position.
    pub fn from_startpos() -> (r: Game)
        ensures
            r.well_formed(),
            is_start(r@.initial.diagram),
            r@.initial.ply == 1,
            r@.initial.last_move is None,
            r@.moves.len() == 0,
    {
        let start = PartialPosition::startpos();
        proof {
            law_the_start_is_sound(start@.diagram);
        }
        Game::opened(start)
    }

    fn opened(partial: PartialPosition) -> (r: Game)
        requires
            partial@.diagram.sound(),
        ensures
            r.well_formed(),
            r@ == Record::opened(partial@),
    {
        let board = Board::new(&partial);
        let mut history: Vec<HistoryEntry> = Vec::new();
        history.push(HistoryEntry::of(&board));
        let current = partial.clone();
        let r = Game { board, initial: partial, current, moves: Vec::new(), history };
        proof {
            assert(r@.moves =~= Seq::empty());
            assert(r@.moves.take(0) =~= Seq::empty());
            assert(r.history@ =~= r@.history());
        }
        r
    }

    /// A game that begins from `partial`, or what is wrong with it.
    pub fn from_partial(partial: PartialPosition) -> (r: Result<Game, PositionError>)
        ensures
            match r {
                Ok(game) => set_fault(partial@.diagram) is None && game.well_formed() && game@
                    == Record::opened(partial@),
                Err(error) => set_fault(partial@.diagram) matches Some(detail) && error@
                    == (PositionFault::BadRoot { detail }),
            },
    {
        match check_piece_counts(&partial) {
            Ok(()) => Ok(Game::opened(partial)),
            Err(error) => Err(error),
        }
    }

    /// Reads the argument of a `position` command: `startpos [moves …]` or
    /// `sfen <board> <side> <hands> [<ply>] [moves …]`. Every move has to be
    /// legal where it is played.
    pub fn from_usi_position(args: &str) -> (r: Result<Game, PositionError>)
        ensures
            match r {
                Ok(game) => game.well_formed() && described(args@) == Ok::<Record, PositionFault>(
                    game@,
                ),
                Err(error) => described(args@) == Err::<Record, PositionFault>(error@),
            },
    {
        let tokens = split_words(args);
        let ghost all = texts(tokens@);
        let (source, from) = match split_root(&tokens) {
            Ok(split) => split,
            Err(error) => return Err(error),
        };
        let partial = match PartialPosition::from_usi(source.as_str()) {
            Ok(partial) => partial,
            Err(error) => {
                let detail = error.fields();
                return Err(PositionError::BadRoot { detail });
            },
        };
        let mut game = match Game::from_partial(partial) {
            Ok(game) => game,
            Err(error) => return Err(error),
        };
        if from == tokens.len() {
            return Ok(game);
        }
        assert(all[from as int] == tokens@[from as int]@);
        if !same_text(tokens[from].as_str(), "moves") {
            return Err(
                PositionError::UnexpectedToken {
                    index: from,
                    token: tokens[from].as_str().to_owned(),
                },
            );
        }
        let ghost rest = all.skip(from + 1);
        let mut i: usize = 0;
        while i < tokens.len() - from - 1
            invariant
                from < tokens@.len(),
                i <= tokens@.len() - from - 1,
                all == texts(tokens@),
                rest == all.skip(from + 1),
                game.well_formed(),
                described(args@) == replayed(game@, rest, i as int),
            decreases tokens@.len() - from - 1 - i,
        {
            assert(rest[i as int] == tokens@[from + 1 + i]@);
            match game.push_usi_move(tokens[from + 1 + i].as_str()) {
                Ok(_) => {},
                Err(error) => return Err(error.with_index(i + 1)),
            }
            i += 1;
        }
        Ok(game)
    }

    /// Reads one move of USI notation and plays it. An error tells of the move
    /// as the one at index 0, and leaves the game as it was.
    pub fn push_usi_move(&mut self, token: &str) -> (r: Result<Move, PositionError>)
        requires
            old(self).well_formed(),
        ensures
            final(self).well_formed(),
            match r {
                Ok(mv) => {
                    &&& read_move(token@) is Some
                    &&& mv == colored(read_move(token@)->0, old(self)@.now().diagram.side)
                    &&& legal_moves(old(self)@.now().diagram).contains(mv)
                    &&& final(self)@ == old(self)@.with(mv)
                },
                Err(error) => {
                    &&& final(self)@ == old(self)@
                    &&& match read_move(token@) {
                        None => error@ == (PositionFault::MoveSyntax { index: 0, token: token@ }),
                        Some(read) => error@ == (PositionFault::IllegalMove {
                            index: 0,
                            token: token@,
                        }) && !legal_moves(old(self)@.now().diagram).contains(
                            colored(read, old(self)@.now().diagram.side),
                        ),
                    }
                },
            },
    {
        let parsed = match parse_move(token) {
            Ok(parsed) => parsed,
            Err(_) => {
                return Err(PositionError::MoveSyntax { index: 0, token: token.to_owned() });
            },
        };
        let mv = color_move(parsed, self.board.side_to_move());
        match self.push_move(mv) {
            Ok(()) => Ok(mv),
            Err(_) => Err(PositionError::IllegalMove { index: 0, token: token.to_owned() }),
        }
    }

    /// Plays `mv`, or says that it is not legal here and leaves the game as it
    /// was.
    pub fn push_move(&mut self, mv: Move) -> (r: Result<(), IllegalMove>)
        requires
            old(self).well_formed(),
        ensures
            final(self).well_formed(),
            match r {
                Ok(()) => legal_moves(old(self)@.now().diagram).contains(mv) && final(self)@
                    == old(self)@.with(mv),
                Err(error) => !legal_moves(old(self)@.now().diagram).contains(mv) && error
                    == IllegalMove(mv) && final(self)@ == old(self)@,
            },
    {
        if !is_legal(&self.board, mv) {
            return Err(IllegalMove(mv));
        }
        self.board.is_a_position();
        let ghost before = *self;
        proof {
            lemma_room(self.current@.diagram);
        }
        let _ = self.board.do_move(mv);
        self.current = self.current.after(mv);
        self.moves.push(mv);
        self.history.push(HistoryEntry::of(&self.board));
        proof {
            lemma_with(before@, mv);
            assert(self@ == before@.with(mv));
            assert(self.history@ =~= self@.history());
        }
        Ok(())
    }

    /// The board.
    pub fn position(&self) -> (r: &Board)
        requires
            self.well_formed(),
        ensures
            r@ == self@.now().diagram,
    {
        &self.board
    }

    /// A board of its own for a search, made from the position reached.
    pub fn search_board(&self) -> (r: Board)
        requires
            self.well_formed(),
        ensures
            r@ == self@.now().diagram,
    {
        self.board.is_a_position();
        Board::new(&self.current)
    }

    /// The position reached, as SFEN.
    pub fn sfen(&self) -> (r: String)
        requires
            self.well_formed(),
        ensures
            r@ == self@.now().sfen(),
    {
        self.current.to_sfen_owned()
    }

    /// The position that the game began from, as SFEN.
    pub fn initial_sfen(&self) -> (r: String)
        ensures
            r@ == self@.initial.sfen(),
    {
        self.initial.to_sfen_owned()
    }

    /// Every move played, in order.
    pub fn moves(&self) -> (r: &Vec<Move>)
        ensures
            r@ == self@.moves,
    {
        &self.moves
    }

    /// One entry for each position reached, the first one included.
    pub fn history(&self) -> (r: &Vec<HistoryEntry>)
        requires
            self.well_formed(),
        ensures
            r@ == self@.history(),
            r@.len() == self@.moves.len() + 1,
    {
        &self.history
    }

    pub fn side_to_move(&self) -> (r: Color)
        requires
            self.well_formed(),
        ensures
            r == self@.now().diagram.side,
    {
        self.board.side_to_move()
    }

    /// Whether the side to move is in check.
    pub fn in_check(&self) -> (r: bool)
        requires
            self.well_formed(),
        ensures
            r == in_check(self@.now().diagram),
    {
        self.board.in_check()
    }

    /// A game of its own with the same record. Its board is made anew from the
    /// position reached.
    pub fn clone(&self) -> (r: Game)
        requires
            self.well_formed(),
        ensures
            r.well_formed(),
            r@ == self@,
    {
        let board = self.search_board();
        let r = Game {
            board,
            initial: self.initial.clone(),
            current: self.current.clone(),
            moves: copied(&self.moves),
            history: copied(&self.history),
        };
        assert(r@ == self@);
        r
    }

    /// The game in words: where it began, and the moves played.
    pub fn describe(&self) -> (r: String)
        ensures
            r@ == "Game { sfen "@ + self@.initial.sfen() + played_text(self@.moves) + " }"@,
    {
        let mut text = "Game { sfen ".to_owned();
        text.append(self.initial_sfen().as_str());
        let ghost head = text@;
        if self.moves.len() > 0 {
            text.append(" moves");
        }
        let mut i: usize = 0;
        proof {
            assert(self.moves@.take(0) =~= Seq::empty());
            assert(text@ =~= head + (if self.moves@.len() > 0 {
                " moves"@
            } else {
                Seq::empty()
            }) + line_text(self.moves@.take(0)));
        }
        while i < self.moves.len()
            invariant
                i <= self.moves@.len(),
                text@ == head + (if self.moves@.len() > 0 {
                    " moves"@
                } else {
                    Seq::empty()
                }) + line_text(self.moves@.take(i as int)),
            decreases self.moves@.len() - i,
        {
            text.append(" ");
            text.append(self.moves[i].to_usi_owned().as_str());
            proof {
                assert(self.moves@.take(i as int + 1).drop_last() =~= self.moves@.take(i as int));
                assert(text@ =~= head + " moves"@ + line_text(self.moves@.take(i as int + 1)));
            }
            i += 1;
        }
        text.append(" }");
        proof {
            assert(self.moves@.take(self.moves@.len() as int) =~= self.moves@);
            assert(text@ =~= head + played_text(self.moves@) + " }"@);
        }
        text
    }
}

/// Moves in USI notation, a blank in front of each.
pub open spec fn line_text(moves: Seq<Move>) -> Seq<char>
    decreases moves.len(),
{
    if moves.len() == 0 {
        Seq::empty()
    } else {
        line_text(moves.drop_last()) + " "@ + usi_text(moves.last())
    }
}

/// The moves of a game as a `position` command has them.
pub open spec fn played_text(moves: Seq<Move>) -> Seq<char> {
    if moves.len() == 0 {
        Seq::empty()
    } else {
        " moves"@ + line_text(moves)
    }
}

/// A list of its own with the same contents.
pub(crate) fn copied<T: Copy>(list: &Vec<T>) -> (r: Vec<T>)
    ensures
        r@ == list@,
{
    let mut copy: Vec<T> = Vec::with_capacity(list.len());
    let mut i: usize = 0;
    while i < list.len()
        invariant
            i <= list@.len(),
            copy@ == list@.take(i as int),
        decreases list@.len() - i,
    {
        copy.push(list[i]);
        assert(list@.take(i as int + 1) =~= list@.take(i as int).push(list@[i as int]));
        i += 1;
    }
    assert(list@.take(list@.len() as int) =~= list@);
    copy
}

proof fn lemma_room(d: Diagram)
    requires
        d.sound(),
    ensures
        forall|kind: PieceKind| kind.droppable() ==> #[trigger] d.census(kind) <= 255,
{
    assert forall|kind: PieceKind| kind.droppable() implies #[trigger] d.census(kind) <= 255 by {
        assert(d.census(kind) <= set_holds(kind));
    }
}

/// Playing a legal move makes the record one move longer, and everything behind
/// that move stays as it was.
proof fn lemma_with(record: Record, mv: Move)
    requires
        record.lawful(),
        legal_moves(record.now().diagram).contains(mv),
    ensures
        record.with(mv).lawful(),
        record.with(mv).now() == record.now().played(mv),
        record.with(mv).history() == record.history().push(
            HistoryEntry::entry(record.now().played(mv).diagram),
        ),
{
    let longer = record.with(mv);
    assert(longer.moves.drop_last() =~= record.moves);
    assert forall|n: int| 0 <= n <= record.moves.len() implies longer.at(n) == #[trigger] record.at(
        n,
    ) by {
        assert(longer.moves.take(n) =~= record.moves.take(n));
    }
    assert(record.moves.take(record.moves.len() as int) =~= record.moves);
    assert(longer.moves.take(longer.moves.len() as int) =~= longer.moves);
    assert forall|n: int| 0 <= n < longer.moves.len() implies legal_moves(
        (#[trigger] longer.at(n)).diagram,
    ).contains(longer.moves[n]) by {
        assert(longer.at(n) == record.at(n));
    }
    let grown = record.history().push(HistoryEntry::entry(record.now().played(mv).diagram));
    assert forall|n: int| 0 <= n < grown.len() implies longer.history()[n] == #[trigger] grown[n] by {
        if n < record.moves.len() + 1 {
            assert(longer.at(n) == record.at(n));
        }
    }
    assert(longer.history() =~= grown);
}

/// Moves that are replayed are played one by one, each as the side to move's and
/// each legal where it is played, behind the moves that were there. A fault names,
/// counted from one, the first that is no move or is not legal; those before it
/// could be played.
pub proof fn law_moves_are_replayed_one_by_one(record: Record, tokens: Seq<Seq<char>>, i: int)
    requires
        0 <= i <= tokens.len(),
    ensures
        match replayed(record, tokens, i) {
            Ok(end) => {
                &&& end.initial == record.initial
                &&& end.moves.len() == record.moves.len() + tokens.len() - i
                &&& end.moves.take(record.moves.len() as int) == record.moves
                &&& forall|k: int|
                    i <= k < tokens.len() ==> was_replayed(
                        end,
                        #[trigger] tokens[k],
                        record.moves.len() + k - i,
                    )
            },
            Err(PositionFault::MoveSyntax { index, token }) => {
                &&& i < index <= tokens.len()
                &&& token == tokens[index - 1]
                &&& read_move(token) is None
                &&& replayed(record, tokens.take(index - 1), i) is Ok
            },
            Err(PositionFault::IllegalMove { index, token }) => {
                &&& i < index <= tokens.len()
                &&& token == tokens[index - 1]
                &&& read_move(token) is Some
                &&& replayed(record, tokens.take(index - 1), i) is Ok
                &&& {
                    let d = replayed(record, tokens.take(index - 1), i)->Ok_0.now().diagram;
                    !legal_moves(d).contains(colored(read_move(token)->0, d.side))
                }
            },
            Err(_) => false,
        },
    decreases tokens.len() - i,
{
    if i < tokens.len() {
        if let Some(read) = read_move(tokens[i]) {
            let d = record.now().diagram;
            let mv = colored(read, d.side);
            if legal_moves(d).contains(mv) {
                let next = record.with(mv);
                law_moves_are_replayed_one_by_one(next, tokens, i + 1);
                match replayed(next, tokens, i + 1) {
                    Ok(end) => {
                        let n = record.moves.len() as int;
                        assert(end.moves.take(n) =~= end.moves.take(n + 1).take(n));
                        assert(next.moves.take(n) =~= record.moves);
                        assert(end.moves.take(n + 1)[n] == mv);
                        assert forall|k: int| i <= k < tokens.len() implies was_replayed(
                            end,
                            #[trigger] tokens[k],
                            record.moves.len() + k - i,
                        ) by {
                            if k > i {
                                assert(was_replayed(
                                    end,
                                    tokens[k],
                                    next.moves.len() + k - (i + 1),
                                ));
                            }
                        }
                    },
                    Err(PositionFault::MoveSyntax { index, .. }) => {
                        assert(tokens.take(index - 1)[i] == tokens[i]);
                    },
                    Err(PositionFault::IllegalMove { index, .. }) => {
                        assert(tokens.take(index - 1)[i] == tokens[i]);
                    },
                    Err(_) => {},
                }
            } else {
                assert(replayed(record, tokens.take(i), i) == Ok::<Record, PositionFault>(record));
            }
        } else {
            assert(replayed(record, tokens.take(i), i) == Ok::<Record, PositionFault>(record));
        }
    }
}

/// Whether the move that was played as number `n`, from zero, is the one that the
/// word spells for the side that was to move, and was legal there.
pub open spec fn was_replayed(record: Record, token: Seq<char>, n: int) -> bool {
    let d = reached(record.initial, record.moves.take(n)).diagram;
    &&& read_move(token) is Some
    &&& record.moves[n] == colored(read_move(token)->0, d.side)
    &&& legal_moves(d).contains(record.moves[n])
}

/// A game has reached what its last move led to from where it had been before.
pub proof fn law_a_game_reaches_what_its_last_move_led_to(record: Record, mv: Move)
    ensures
        record.with(mv).now() == record.now().played(mv),
        record.with(mv).initial == record.initial,
        record.with(mv).moves == record.moves.push(mv),
        Record::opened(record.initial).now() == record.initial,
        record.with(mv).history().len() == record.history().len() + 1,
        record.with(mv).history().drop_last() == record.history(),
        record.with(mv).history().last() == HistoryEntry::entry(record.now().played(mv).diagram),
{
    let after = record.with(mv);
    assert(after.moves.drop_last() =~= record.moves);
    assert forall|n: int| 0 <= n <= record.moves.len() implies #[trigger] after.at(n) == record.at(
        n,
    ) by {
        assert(after.moves.take(n) =~= record.moves.take(n));
    }
    assert(after.moves.take(after.moves.len() as int) =~= after.moves);
    assert(after.history().drop_last() =~= record.history());
}

/// Every game was played by the rules: it began from what a shogi set makes up, and
/// every move was legal where it was played.
pub proof fn law_every_game_was_played_by_the_rules(game: Game, n: int)
    requires
        game.well_formed(),
        0 <= n < game@.moves.len(),
    ensures
        game@.initial.diagram.sound(),
        legal_moves(reached(game@.initial, game@.moves.take(n)).diagram).contains(game@.moves[n]),
{
    assert(legal_moves(game@.at(n).diagram).contains(game@.moves[n]));
}

proof fn lemma_fields(tokens: Seq<Seq<char>>, from: int, counted: int)
    requires
        0 <= counted <= 4,
        0 <= from <= tokens.len(),
    ensures
        ({
            let n = fields_from(tokens, from, counted);
            &&& counted <= n <= 4
            &&& from + n - counted <= tokens.len()
            &&& forall|k: int|
                from <= k < from + n - counted ==> #[trigger] tokens[k] != "moves"@
            &&& n < 4 ==> from + n - counted == tokens.len() || tokens[from + n - counted]
                == "moves"@
        }),
    decreases tokens.len() - from,
{
    if from < tokens.len() && counted < 4 && tokens[from] != "moves"@ {
        lemma_fields(tokens, from + 1, counted + 1);
    }
}

/// The text of a position is `startpos`, or `sfen` with the three or four words
/// behind it that come before `moves`, the fourth of which is a move number from 1
/// to 65535. Nothing else begins a game.
pub proof fn law_a_game_begins_from_startpos_or_sfen(tokens: Seq<Seq<char>>)
    ensures
        root_of(tokens) == Err::<(Seq<char>, int), PositionFault>(PositionFault::MissingRoot)
            <==> tokens.len() == 0,
        tokens.len() > 0 && tokens[0] == "startpos"@ ==> root_of(tokens) == Ok::<
            (Seq<char>, int),
            PositionFault,
        >(("startpos"@, 1)),
        tokens.len() > 0 && tokens[0] != "startpos"@ && tokens[0] != "sfen"@ ==> root_of(tokens)
            == Err::<(Seq<char>, int), PositionFault>(
            PositionFault::UnexpectedToken { index: 0, token: tokens[0] },
        ),
        tokens.len() > 0 && tokens[0] == "sfen"@ ==> match root_of(tokens) {
            Ok((source, from)) => {
                &&& from == 4 || from == 5
                &&& from <= tokens.len()
                &&& source == "sfen "@ + joined(tokens.subrange(1, from))
                &&& forall|k: int| 1 <= k < from ==> #[trigger] tokens[k] != "moves"@
                &&& from == 4 ==> tokens.len() == 4 || tokens[4] == "moves"@
                &&& from == 5 ==> unsigned(tokens[4], 65535) is Some && unsigned(
                    tokens[4],
                    65535,
                )->0 >= 1
            },
            Err(PositionFault::BadRoot { .. }) => {
                ||| tokens.len() < 4
                ||| tokens[1] == "moves"@ || tokens[2] == "moves"@ || tokens[3] == "moves"@
                ||| tokens.len() > 4 && tokens[4] != "moves"@ && (unsigned(tokens[4], 65535) is None
                    || unsigned(tokens[4], 65535)->0 < 1)
            },
            Err(_) => false,
        },
{
    reveal_strlit("startpos");
    reveal_strlit("sfen");
    assert("startpos"@.len() != "sfen"@.len());
    if tokens.len() > 0 {
        lemma_fields(tokens, 1, 0);
    }
}

/// Words are joined by one blank each.
pub proof fn law_words_are_joined_by_blanks(list: Seq<Seq<char>>, word: Seq<char>)
    ensures
        joined(Seq::empty()) == Seq::<char>::empty(),
        joined(seq![word]) == word,
        list.len() > 0 ==> joined(list.push(word)) == joined(list) + " "@ + word,
{
    assert(list.push(word).drop_last() =~= list);
}

/// A position begins a game if and only if a shogi set makes it up and no side has
/// a second king. What is wrong with it otherwise is told.
pub proof fn law_a_game_begins_from_one_shogi_set(d: Diagram)
    ensures
        set_fault(d) is None <==> {
            &&& d.census(PieceKind::Pawn) <= 18
            &&& d.census(PieceKind::Lance) <= 4
            &&& d.census(PieceKind::Knight) <= 4
            &&& d.census(PieceKind::Silver) <= 4
            &&& d.census(PieceKind::Gold) <= 4
            &&& d.census(PieceKind::Bishop) <= 2
            &&& d.census(PieceKind::Rook) <= 2
            &&& kings(d.squares, Color::Black) <= 1
            &&& kings(d.squares, Color::White) <= 1
        },
{
    law_a_set_is_counted_out(d);
}

/// A `position` command describes the game that its root and its moves make up:
/// with nothing behind the root, the game has not begun; `moves` is followed by
/// moves, and anything else is unexpected. A root that is no position, or one that
/// no shogi set makes up, is refused.
pub proof fn law_a_description_is_a_root_and_moves(args: Seq<char>)
    ensures
        ({
            let tokens = words(args);
            let root = root_of(tokens);
            &&& root matches Err(fault) ==> described(args) == Err::<Record, PositionFault>(fault)
            &&& root is Ok ==> {
                let (source, from) = root->Ok_0;
                let parsed = parsed_position(source);
                &&& parsed is Err ==> described(args) == Err::<Record, PositionFault>(
                    PositionFault::BadRoot { detail: parse_error_fields(parsed->Err_0) },
                )
                &&& parsed is Ok && set_fault(parsed->Ok_0.diagram) is Some ==> described(args)
                    == Err::<Record, PositionFault>(
                    PositionFault::BadRoot { detail: set_fault(parsed->Ok_0.diagram)->0 },
                )
                &&& parsed is Ok && set_fault(parsed->Ok_0.diagram) is None ==> {
                    let opened = Record { initial: parsed->Ok_0, moves: Seq::empty() };
                    &&& from >= tokens.len() ==> described(args) == Ok::<Record, PositionFault>(
                        opened,
                    )
                    &&& from < tokens.len() && tokens[from] == "moves"@ ==> described(args)
                        == replayed(opened, tokens.skip(from + 1), 0)
                    &&& from < tokens.len() && tokens[from] != "moves"@ ==> described(args) == Err::<
                        Record,
                        PositionFault,
                    >(PositionFault::UnexpectedToken { index: from, token: tokens[from] })
                }
            }
        }),
{
}

} // verus!
