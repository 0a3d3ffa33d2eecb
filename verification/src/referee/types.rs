//! The vocabulary of the referee.

use vstd::prelude::*;

use crate::position::{parse_error_text, ParseError};
use crate::referee::inventory::{kind_name, UnrepresentableRoot};
use crate::shogi::{Color, IllegalMoveKind, Move};
use crate::text::{digits, push_number};

verus! {

/// One played move, with what cannot be told from the move alone.
#[derive(Debug)]
pub struct Ply {
    pub mv: Move,
    /// Whether the move gave check.
    pub gave_check: bool,
    /// The move in official notation.
    pub kifu: String,
}

/// What a played move holds.
#[verifier::ext_equal]
pub struct PlyRecord {
    pub mv: Move,
    pub gave_check: bool,
    pub kifu: Seq<char>,
}

impl View for Ply {
    type V = PlyRecord;

    open spec fn view(&self) -> PlyRecord {
        PlyRecord { mv: self.mv, gave_check: self.gave_check, kifu: self.kifu@ }
    }
}

impl Clone for Ply {
    fn clone(&self) -> (r: Ply)
        ensures
            r@ == self@,
    {
        Ply { mv: self.mv, gave_check: self.gave_check, kifu: self.kifu.clone() }
    }
}

/// How a game ended.
#[derive(Clone, Copy, Debug, PartialEq, Eq, Structural)]
pub enum Outcome {
    /// The loser has no legal move.
    Checkmate { winner: Color },
    /// A position occurred four times and neither side alone checked throughout.
    Repetition,
    /// A position occurred four times and `loser` checked with each of its moves
    /// in between.
    PerpetualCheck { loser: Color },
    Resignation { loser: Color },
    FlagFall { loser: Color },
    IllegalMove { loser: Color, kind: IllegalMoveKind },
    /// The winner's king entered the opponent's camp and was declared there.
    Declaration { winner: Color },
    /// The game is as long as its players agreed that it may be.
    MaxMoves,
    Abandoned { loser: Color },
}

/// What an outcome reads as.
pub open spec fn outcome_text(outcome: Outcome) -> Seq<char> {
    match outcome {
        Outcome::Checkmate { winner } => side_text(winner) + "の勝ち（詰み）"@,
        Outcome::Repetition => "千日手"@,
        Outcome::PerpetualCheck { loser } => side_text(loser) + "の負け（連続王手の千日手）"@,
        Outcome::Resignation { loser } => side_text(loser) + "の投了"@,
        Outcome::FlagFall { loser } => side_text(loser) + "の時間切れ"@,
        Outcome::IllegalMove { loser, kind } => side_text(loser) + "の反則負け（"@ + illegal_text(
            kind,
        ) + "）"@,
        Outcome::Declaration { winner } => side_text(winner) + "の勝ち（入玉宣言）"@,
        Outcome::MaxMoves => "引き分け（最大手数）"@,
        Outcome::Abandoned { loser } => side_text(loser) + "の負け（対局放棄）"@,
    }
}

impl Outcome {
    /// The outcome as a sentence.
    pub fn describe(&self) -> (r: String)
        ensures
            r@ == outcome_text(*self),
    {
        match *self {
            Outcome::Checkmate { winner } => told_of(winner, "の勝ち（詰み）"),
            Outcome::Repetition => "千日手".to_owned(),
            Outcome::PerpetualCheck { loser } => told_of(
                loser,
                "の負け（連続王手の千日手）",
            ),
            Outcome::Resignation { loser } => told_of(loser, "の投了"),
            Outcome::FlagFall { loser } => told_of(loser, "の時間切れ"),
            Outcome::IllegalMove { loser, kind } => {
                let mut text = told_of(loser, "の反則負け（");
                text.append(illegal(kind));
                text.append("）");
                text
            },
            Outcome::Declaration { winner } => told_of(winner, "の勝ち（入玉宣言）"),
            Outcome::MaxMoves => "引き分け（最大手数）".to_owned(),
            Outcome::Abandoned { loser } => told_of(loser, "の負け（対局放棄）"),
        }
    }
}

fn told_of(color: Color, what: &str) -> (r: String)
    ensures
        r@ == side_text(color) + what@,
{
    let mut text = side(color).to_owned();
    text.append(what);
    text
}

/// Why a move was refused.
#[derive(Clone, Copy, Debug, PartialEq, Eq, Structural)]
pub enum MoveError {
    /// The game is over.
    GameOver,
    Illegal(IllegalMoveKind),
}

/// What a refusal reads as.
pub open spec fn refusal_text(error: MoveError) -> Seq<char> {
    match error {
        MoveError::GameOver => "対局は終了しています"@,
        MoveError::Illegal(kind) => illegal_text(kind),
    }
}

impl MoveError {
    /// The refusal in words.
    pub fn describe(&self) -> (r: String)
        ensures
            r@ == refusal_text(*self),
    {
        match *self {
            MoveError::GameOver => "対局は終了しています".to_owned(),
            MoveError::Illegal(kind) => illegal(kind).to_owned(),
        }
    }
}

/// Which promotion choices a move from one square to another offers.
#[derive(Clone, Copy, Debug, PartialEq, Eq, Structural)]
pub enum PromotionChoice {
    /// The piece does not promote.
    Never,
    /// The piece has to promote.
    Forced,
    /// Both are legal.
    Optional,
}

pub open spec fn side_text(color: Color) -> Seq<char> {
    match color {
        Color::Black => "先手"@,
        Color::White => "後手"@,
    }
}

/// The name of a side.
pub fn side(color: Color) -> (r: &'static str)
    ensures
        r@ == side_text(color),
{
    match color {
        Color::Black => "先手",
        Color::White => "後手",
    }
}

/// Why a token was refused as a move.
#[derive(Clone, Copy, Debug)]
pub enum UsiMoveError {
    /// The token is no move.
    Syntax(ParseError),
    /// The token is a move, and the rules refused it.
    Refused(MoveError),
}

/// What a refused token reads as.
pub open spec fn usi_move_error_text(error: UsiMoveError) -> Seq<char> {
    match error {
        UsiMoveError::Syntax(error) => "not a USI move: "@ + parse_error_text(error),
        UsiMoveError::Refused(error) => "refused: "@ + refusal_text(error),
    }
}

impl UsiMoveError {
    /// The error in words.
    pub fn describe(&self) -> (r: String)
        ensures
            r@ == usi_move_error_text(*self),
    {
        match self {
            UsiMoveError::Syntax(error) => {
                let mut text = "not a USI move: ".to_owned();
                text.append(error.describe().as_str());
                text
            },
            UsiMoveError::Refused(error) => {
                let mut text = "refused: ".to_owned();
                text.append(error.describe().as_str());
                text
            },
        }
    }
}

/// Why the argument of a `position` command was refused.
#[derive(Clone, Debug)]
pub enum UsiPositionError {
    /// There is no argument.
    Empty,
    /// The position that the game begins from could not be read.
    Root(ParseError),
    /// The position that the game begins from holds more than a game can.
    Unrepresentable(UnrepresentableRoot),
    /// A move was refused; `index` counts from the first.
    Move { index: usize, token: String, source: UsiMoveError },
}

/// What is wrong with the argument of a `position` command.
#[verifier::ext_equal]
pub enum UsiPositionFault {
    Empty,
    Root(ParseError),
    Unrepresentable(UnrepresentableRoot),
    Move { index: int, token: Seq<char>, source: UsiMoveError },
}

impl View for UsiPositionError {
    type V = UsiPositionFault;

    open spec fn view(&self) -> UsiPositionFault {
        match *self {
            UsiPositionError::Empty => UsiPositionFault::Empty,
            UsiPositionError::Root(error) => UsiPositionFault::Root(error),
            UsiPositionError::Unrepresentable(root) => UsiPositionFault::Unrepresentable(root),
            UsiPositionError::Move { index, token, source } => UsiPositionFault::Move {
                index: index as int,
                token: token@,
                source,
            },
        }
    }
}

/// What a refused argument reads as.
pub open spec fn usi_position_error_text(fault: UsiPositionFault) -> Seq<char> {
    match fault {
        UsiPositionFault::Empty => "empty position argument"@,
        UsiPositionFault::Root(error) => "bad root: "@ + parse_error_text(error),
        UsiPositionFault::Unrepresentable(root) => "bad root: "@ + (digits(root.count as nat)
            + " "@ + kind_name(root.kind)
            + " on the board and in hand, past the 99 a game can hold"@),
        UsiPositionFault::Move { index, token, source } => "move "@ + digits(index as nat) + " `"@
            + token + "`: "@ + usi_move_error_text(source),
    }
}

impl UsiPositionError {
    /// The error in words.
    pub fn describe(&self) -> (r: String)
        ensures
            r@ == usi_position_error_text(self@),
    {
        match self {
            UsiPositionError::Empty => "empty position argument".to_owned(),
            UsiPositionError::Root(error) => {
                let mut text = "bad root: ".to_owned();
                text.append(error.describe().as_str());
                text
            },
            UsiPositionError::Unrepresentable(root) => {
                let mut text = "bad root: ".to_owned();
                text.append(root.describe().as_str());
                text
            },
            UsiPositionError::Move { index, token, source } => {
                let mut text = "move ".to_owned();
                push_number(&mut text, *index as u128);
                text.append(" `");
                text.append(token.as_str());
                text.append("`: ");
                text.append(source.describe().as_str());
                text
            },
        }
    }
}

pub open spec fn illegal_text(kind: IllegalMoveKind) -> Seq<char> {
    match kind {
        IllegalMoveKind::TwoPawns => "二歩です"@,
        IllegalMoveKind::IgnoredCheck => "王手を放置しています"@,
        IllegalMoveKind::DropPawnMate => "打ち歩詰めです"@,
        IllegalMoveKind::DropStuck => "そこに打つと行き所がありません"@,
        IllegalMoveKind::NormalStuck => "成らなければ行き所がありません"@,
        IllegalMoveKind::GameFinished => "対局は終了しています"@,
        IllegalMoveKind::IncorrectMove => "その手は指せません"@,
    }
}

/// The reason why a move is illegal, as a player is told it.
pub fn illegal(kind: IllegalMoveKind) -> (r: &'static str)
    ensures
        r@ == illegal_text(kind),
{
    match kind {
        IllegalMoveKind::TwoPawns => "二歩です",
        IllegalMoveKind::IgnoredCheck => "王手を放置しています",
        IllegalMoveKind::DropPawnMate => "打ち歩詰めです",
        IllegalMoveKind::DropStuck => "そこに打つと行き所がありません",
        IllegalMoveKind::NormalStuck => "成らなければ行き所がありません",
        IllegalMoveKind::GameFinished => "対局は終了しています",
        IllegalMoveKind::IncorrectMove => "その手は指せません",
    }
}

/// Every reason has a sentence of its own, and a game that is over reads the
/// same whether the game says so or the rules do.
pub proof fn law_every_reason_has_its_own_sentence(a: IllegalMoveKind, b: IllegalMoveKind)
    ensures
        illegal_text(a) == illegal_text(b) ==> a == b,
        refusal_text(MoveError::GameOver) == illegal_text(IllegalMoveKind::GameFinished),
{
    reveal_strlit("二歩です");
    reveal_strlit("王手を放置しています");
    reveal_strlit("打ち歩詰めです");
    reveal_strlit("そこに打つと行き所がありません");
    reveal_strlit("成らなければ行き所がありません");
    reveal_strlit("対局は終了しています");
    reveal_strlit("その手は指せません");
    if illegal_text(a) == illegal_text(b) {
        assert(illegal_text(a)[0] == illegal_text(b)[0]);
        assert(illegal_text(a)[1] == illegal_text(b)[1]);
    }
}

} // verus!
