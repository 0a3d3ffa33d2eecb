//! Reading what a GUI sends.

use vstd::prelude::*;

use crate::search::clock::Duration;
use crate::search::job::Limits;
use crate::text::{
    chars_of, parse_unsigned, same_text, skip_space, split_words, text_of, texts, trim, trimmed,
    trimmed_part, trimmed_start, unsigned, word_end, word_len, words, is_space, is_whitespace,
    lemma_word_len,
};

verus! {

/// A command from the GUI.
#[derive(Clone, Debug, PartialEq, Eq)]
pub enum GuiCommand {
    Usi,
    IsReady,
    SetOption { name: String, value: Option<String> },
    UsiNewGame,
    /// What follows `position`, unread.
    Position(String),
    Go(Limits),
    /// `go mate …`, which is answered by `checkmate` and never by a move.
    GoMate,
    Stop,
    PonderHit,
    GameOver,
    Quit,
    /// A line that says nothing known.
    Unknown(String),
}

/// What a command asks.
#[verifier::ext_equal]
pub enum Request {
    Usi,
    IsReady,
    SetOption { name: Seq<char>, value: Option<Seq<char>> },
    UsiNewGame,
    Position(Seq<char>),
    Go(Limits),
    GoMate,
    Stop,
    PonderHit,
    GameOver,
    Quit,
    Unknown(Seq<char>),
}

impl View for GuiCommand {
    type V = Request;

    open spec fn view(&self) -> Request {
        match *self {
            GuiCommand::Usi => Request::Usi,
            GuiCommand::IsReady => Request::IsReady,
            GuiCommand::SetOption { name, value } => Request::SetOption {
                name: name@,
                value: match value {
                    Some(value) => Some(value@),
                    None => None,
                },
            },
            GuiCommand::UsiNewGame => Request::UsiNewGame,
            GuiCommand::Position(args) => Request::Position(args@),
            GuiCommand::Go(limits) => Request::Go(limits),
            GuiCommand::GoMate => Request::GoMate,
            GuiCommand::Stop => Request::Stop,
            GuiCommand::PonderHit => Request::PonderHit,
            GuiCommand::GameOver => Request::GameOver,
            GuiCommand::Quit => Request::Quit,
            GuiCommand::Unknown(line) => Request::Unknown(line@),
        }
    }
}

/// What a line asks; nothing if it is blank. White space around it and between
/// its words does not matter, nor what follows a command that takes nothing.
pub open spec fn request_of(line: Seq<char>) -> Option<Request> {
    let line = trimmed(line);
    let word = line.take(word_len(line) as int);
    let rest = trimmed(line.skip(word_len(line) as int));
    if line.len() == 0 {
        None
    } else if word == "usi"@ {
        Some(Request::Usi)
    } else if word == "isready"@ {
        Some(Request::IsReady)
    } else if word == "usinewgame"@ {
        Some(Request::UsiNewGame)
    } else if word == "stop"@ {
        Some(Request::Stop)
    } else if word == "ponderhit"@ {
        Some(Request::PonderHit)
    } else if word == "gameover"@ {
        Some(Request::GameOver)
    } else if word == "quit"@ {
        Some(Request::Quit)
    } else if word == "setoption"@ {
        Some(option_request(rest))
    } else if word == "position"@ {
        Some(Request::Position(rest))
    } else if word == "go"@ {
        if words(rest).len() > 0 && words(rest)[0] == "mate"@ {
            Some(Request::GoMate)
        } else {
            Some(Request::Go(limits_from(words(rest), 0, Limits::unlimited())))
        }
    } else {
        Some(Request::Unknown(line))
    }
}

/// Where a word first stands in a text, whole, at or after `from`.
pub open spec fn word_at(text: Seq<char>, word: Seq<char>, from: int) -> Option<int>
    decreases text.len() - from,
{
    if from < 0 || from >= text.len() {
        None
    } else if is_space(text[from]) {
        word_at(text, word, from + 1)
    } else {
        let n = word_len(text.skip(from)) as int;
        if n <= 0 || from + n > text.len() {
            None
        } else if text.subrange(from, from + n) == word {
            Some(from)
        } else {
            word_at(text, word, from + n)
        }
    }
}

/// What follows `name`, if the text begins with that word and goes on.
pub open spec fn after_name(text: Seq<char>) -> Seq<char> {
    let n = word_len(text) as int;
    if text.take(n) == "name"@ && n < text.len() {
        trimmed_start(text.skip(n))
    } else {
        text
    }
}

/// `name <name> [value <value>]`: the name is what comes before the word
/// `value`, and the value is all that comes behind it, blanks included.
pub open spec fn option_request(text: Seq<char>) -> Request {
    let named = after_name(text);
    match word_at(named, "value"@, 0) {
        Some(at) => Request::SetOption {
            name: trimmed(named.take(at)),
            value: Some(trimmed(named.skip(at + 5))),
        },
        None => Request::SetOption { name: trimmed(named), value: None },
    }
}

/// The milliseconds that the word at `i` spells, if it is there and does.
pub open spec fn millis_at(tokens: Seq<Seq<char>>, i: int) -> Option<Duration> {
    match number_at(tokens, i, u64::MAX as int) {
        Some(millis) => Some(Duration::of_millis(millis)),
        None => None,
    }
}

/// The number of at most `max` that the word at `i` spells, if it is there and
/// does.
pub open spec fn number_at(tokens: Seq<Seq<char>>, i: int, max: int) -> Option<int> {
    if i < tokens.len() {
        unsigned(tokens[i], max)
    } else {
        None
    }
}

/// Limits with what the words from the `i`th on say of them. A word that means
/// nothing is passed over, and a value that cannot be read leaves its field
/// unset.
pub open spec fn limits_from(tokens: Seq<Seq<char>>, i: int, limits: Limits) -> Limits
    decreases tokens.len() + 1 - i,
{
    if i >= tokens.len() {
        limits
    } else if tokens[i] == "btime"@ {
        limits_from(tokens, i + 2, Limits { btime: millis_at(tokens, i + 1), ..limits })
    } else if tokens[i] == "wtime"@ {
        limits_from(tokens, i + 2, Limits { wtime: millis_at(tokens, i + 1), ..limits })
    } else if tokens[i] == "binc"@ {
        limits_from(tokens, i + 2, Limits { binc: millis_at(tokens, i + 1), ..limits })
    } else if tokens[i] == "winc"@ {
        limits_from(tokens, i + 2, Limits { winc: millis_at(tokens, i + 1), ..limits })
    } else if tokens[i] == "byoyomi"@ {
        limits_from(tokens, i + 2, Limits { byoyomi: millis_at(tokens, i + 1), ..limits })
    } else if tokens[i] == "movetime"@ {
        limits_from(tokens, i + 2, Limits { movetime: millis_at(tokens, i + 1), ..limits })
    } else if tokens[i] == "depth"@ {
        limits_from(
            tokens,
            i + 2,
            Limits {
                depth: match number_at(tokens, i + 1, u32::MAX as int) {
                    Some(depth) => Some(depth as u32),
                    None => None,
                },
                ..limits
            },
        )
    } else if tokens[i] == "nodes"@ {
        limits_from(
            tokens,
            i + 2,
            Limits {
                nodes: match number_at(tokens, i + 1, u64::MAX as int) {
                    Some(nodes) => Some(nodes as u64),
                    None => None,
                },
                ..limits
            },
        )
    } else if tokens[i] == "infinite"@ {
        limits_from(tokens, i + 1, Limits { infinite: true, ..limits })
    } else if tokens[i] == "ponder"@ {
        limits_from(tokens, i + 1, Limits { ponder: true, ..limits })
    } else {
        limits_from(tokens, i + 1, limits)
    }
}

/// Reads one line, or `None` if it is blank.
pub fn parse_line(line: &str) -> (r: Option<GuiCommand>)
    ensures
        match r {
            Some(command) => request_of(line@) == Some(command@),
            None => request_of(line@) is None,
        },
{
    let line = trim(line);
    let chars = chars_of(line.as_str());
    if chars.len() == 0 {
        return None;
    }
    assert(chars@.skip(0) =~= line@);
    let end: usize = word_end(&chars, 0);
    let len: usize = chars.len();
    let word = text_of(&chars, 0, end);
    let rest = trimmed_part(&chars, end, len);
    proof {
        assert(chars@.subrange(0, end as int) =~= line@.take(end as int));
        assert(chars@.subrange(end as int, len as int) =~= line@.skip(end as int));
    }
    let word = word.as_str();
    if same_text(word, "usi") {
        Some(GuiCommand::Usi)
    } else if same_text(word, "isready") {
        Some(GuiCommand::IsReady)
    } else if same_text(word, "usinewgame") {
        Some(GuiCommand::UsiNewGame)
    } else if same_text(word, "stop") {
        Some(GuiCommand::Stop)
    } else if same_text(word, "ponderhit") {
        Some(GuiCommand::PonderHit)
    } else if same_text(word, "gameover") {
        Some(GuiCommand::GameOver)
    } else if same_text(word, "quit") {
        Some(GuiCommand::Quit)
    } else if same_text(word, "setoption") {
        Some(parse_setoption(rest.as_str()))
    } else if same_text(word, "position") {
        Some(GuiCommand::Position(rest))
    } else if same_text(word, "go") {
        let tokens = split_words(rest.as_str());
        assert(tokens@.len() > 0 ==> texts(tokens@)[0] == tokens@[0]@);
        if tokens.len() > 0 && same_text(tokens[0].as_str(), "mate") {
            Some(GuiCommand::GoMate)
        } else {
            Some(GuiCommand::Go(parse_go(&tokens)))
        }
    } else {
        Some(GuiCommand::Unknown(line))
    }
}

/// Reads the argument of `setoption`.
pub fn parse_setoption(rest: &str) -> (r: GuiCommand)
    ensures
        r@ == option_request(rest@),
{
    let chars = chars_of(rest);
    let len: usize = chars.len();
    assert(chars@.skip(0) =~= rest@);
    let end: usize = word_end(&chars, 0);
    let word = text_of(&chars, 0, end);
    assert(word@ =~= rest@.take(end as int));
    let from: usize = if end < len && same_text(word.as_str(), "name") {
        skip_space(&chars, end, len)
    } else {
        0
    };
    let named = text_of(&chars, from, len);
    proof {
        assert(chars@.subrange(end as int, len as int) =~= rest@.skip(end as int));
        assert(chars@.subrange(0, len as int) =~= rest@);
        assert(named@ == after_name(rest@));
    }
    match split_once_token(named.as_str(), "value") {
        Some((name, value)) => {
            proof {
                reveal_strlit("value");
            }
            GuiCommand::SetOption {
                name: trim(name.as_str()),
                value: Some(trim(value.as_str())),
            }
        },
        None => GuiCommand::SetOption { name: trim(named.as_str()), value: None },
    }
}

/// What comes before the first occurrence of `token` as a whole word, and what
/// comes behind it.
pub fn split_once_token(haystack: &str, token: &str) -> (r: Option<(String, String)>)
    ensures
        match r {
            Some((before, behind)) => word_at(haystack@, token@, 0) matches Some(at) && before@
                == haystack@.take(at) && behind@ == haystack@.skip(at + token@.len()),
            None => word_at(haystack@, token@, 0) is None,
        },
{
    let chars = chars_of(haystack);
    let len: usize = chars.len();
    let mut i: usize = 0;
    while i < len
        invariant
            i <= len,
            len == chars@.len(),
            chars@ == haystack@,
            word_at(haystack@, token@, 0) == word_at(haystack@, token@, i as int),
        decreases len - i,
    {
        if is_whitespace(chars[i]) {
            i += 1;
        } else {
            let end: usize = word_end(&chars, i);
            proof {
                let tail = chars@.skip(i as int);
                assert(tail[0] == chars@[i as int]);
                lemma_word_len(tail);
            }
            let word = text_of(&chars, i, end);
            if same_text(word.as_str(), token) {
                let before = text_of(&chars, 0, i);
                let behind = text_of(&chars, end, len);
                proof {
                    assert(token@.len() == end - i);
                    assert(before@ =~= haystack@.take(i as int));
                    assert(behind@ =~= haystack@.skip(i + token@.len()));
                }
                return Some((before, behind));
            }
            i = end;
        }
    }
    None
}

fn read_number(tokens: &Vec<String>, i: usize, max: u64) -> (r: Option<u64>)
    ensures
        match r {
            Some(n) => number_at(texts(tokens@), i as int, max as int) == Some(n as int) && n <= max,
            None => number_at(texts(tokens@), i as int, max as int) is None,
        },
{
    if i < tokens.len() {
        assert(texts(tokens@)[i as int] == tokens@[i as int]@);
        parse_unsigned(tokens[i].as_str(), max)
    } else {
        None
    }
}

fn read_millis(tokens: &Vec<String>, i: usize) -> (r: Option<Duration>)
    ensures
        r == millis_at(texts(tokens@), i as int),
{
    match read_number(tokens, i, u64::MAX) {
        Some(millis) => Some(Duration::from_millis(millis)),
        None => None,
    }
}

/// Reads the argument of `go`. It is never refused.
pub fn parse_go(tokens: &Vec<String>) -> (r: Limits)
    ensures
        r == limits_from(texts(tokens@), 0, Limits::unlimited()),
{
    let ghost all = texts(tokens@);
    let len: usize = tokens.len();
    let mut limits = Limits::default();
    let mut i: usize = 0;
    while i < len
        invariant
            len == tokens@.len(),
            all == texts(tokens@),
            i <= len,
            limits_from(all, 0, Limits::unlimited()) == limits_from(all, i as int, limits),
        decreases len - i,
    {
        let token = tokens[i].as_str();
        assert(all[i as int] == token@);
        let ghost i0 = i as int;
        let ghost limits0 = limits;
        let mut taken = true;
        if same_text(token, "btime") {
            limits.btime = read_millis(tokens, i + 1);
        } else if same_text(token, "wtime") {
            limits.wtime = read_millis(tokens, i + 1);
        } else if same_text(token, "binc") {
            limits.binc = read_millis(tokens, i + 1);
        } else if same_text(token, "winc") {
            limits.winc = read_millis(tokens, i + 1);
        } else if same_text(token, "byoyomi") {
            limits.byoyomi = read_millis(tokens, i + 1);
        } else if same_text(token, "movetime") {
            limits.movetime = read_millis(tokens, i + 1);
        } else if same_text(token, "depth") {
            limits.depth = match read_number(tokens, i + 1, u32::MAX as u64) {
                Some(depth) => Some(depth as u32),
                None => None,
            };
        } else if same_text(token, "nodes") {
            limits.nodes = read_number(tokens, i + 1, u64::MAX);
        } else {
            taken = false;
            if same_text(token, "infinite") {
                limits.infinite = true;
            } else if same_text(token, "ponder") {
                limits.ponder = true;
            }
        }
        if taken && len - i >= 2 {
            i += 2;
        } else {
            i += 1;
        }
        proof {
            if taken && i0 + 2 > len {
                assert(limits_from(all, i0 + 2, limits) == limits);
                assert(limits_from(all, i as int, limits) == limits);
            }
        }
    }
    limits
}

/// A `go` is never refused, whatever follows it.
pub proof fn law_a_go_is_never_refused(line: Seq<char>)
    requires
        trimmed(line).take(word_len(trimmed(line)) as int) == "go"@,
    ensures
        request_of(line) matches Some(Request::Go(_)) || request_of(line) == Some(Request::GoMate),
{
    reveal_strlit("go");
    reveal_strlit("usi");
    reveal_strlit("isready");
    reveal_strlit("usinewgame");
    reveal_strlit("stop");
    reveal_strlit("ponderhit");
    reveal_strlit("gameover");
    reveal_strlit("quit");
    reveal_strlit("setoption");
    reveal_strlit("position");
    let word = trimmed(line).take(word_len(trimmed(line)) as int);
    assert(word.len() == 2);
    lemma_word_len(trimmed(line));
}

/// The words that a `go` knows are all different.
proof fn lemma_the_words_differ()
    ensures
        "btime"@ != "wtime"@ && "btime"@ != "depth"@ && "btime"@ != "nodes"@,
        "wtime"@ != "depth"@ && "wtime"@ != "nodes"@ && "depth"@ != "nodes"@,
        "btime"@.len() == 5 && "wtime"@.len() == 5 && "depth"@.len() == 5 && "nodes"@.len() == 5,
        "binc"@ != "winc"@ && "binc"@.len() == 4 && "winc"@.len() == 4,
        "byoyomi"@.len() == 7,
        "movetime"@.len() == 8 && "infinite"@.len() == 8 && "movetime"@ != "infinite"@,
        "ponder"@.len() == 6,
{
    reveal_strlit("btime");
    reveal_strlit("wtime");
    reveal_strlit("binc");
    reveal_strlit("winc");
    reveal_strlit("byoyomi");
    reveal_strlit("movetime");
    reveal_strlit("depth");
    reveal_strlit("nodes");
    reveal_strlit("infinite");
    reveal_strlit("ponder");
    assert("btime"@[0] == 'b' && "wtime"@[0] == 'w' && "depth"@[0] == 'd' && "nodes"@[0] == 'n');
    assert("binc"@[0] == 'b' && "winc"@[0] == 'w');
    assert("movetime"@[0] == 'm' && "infinite"@[0] == 'i');
}

/// What the words from a place on say does not depend on what stands before them.
#[verifier::rlimit(30)]
proof fn lemma_limits_behind(head: Seq<Seq<char>>, rest: Seq<Seq<char>>, i: int, limits: Limits)
    requires
        0 <= i,
    ensures
        limits_from(head + rest, head.len() + i, limits) == limits_from(rest, i, limits),
    decreases rest.len() + 1 - i,
{
    let all = head + rest;
    let at = head.len() + i;
    if i < rest.len() {
        assert(all[at] == rest[i]);
        if i + 1 < rest.len() {
            assert(all[at + 1] == rest[i + 1]);
        }
        assert(millis_at(all, at + 1) == millis_at(rest, i + 1));
        assert(number_at(all, at + 1, u32::MAX as int) == number_at(rest, i + 1, u32::MAX as int));
        assert(number_at(all, at + 1, u64::MAX as int) == number_at(rest, i + 1, u64::MAX as int));
        let time = millis_at(rest, i + 1);
        let depth = match number_at(rest, i + 1, u32::MAX as int) {
            Some(depth) => Some(depth as u32),
            None => None,
        };
        let nodes = match number_at(rest, i + 1, u64::MAX as int) {
            Some(nodes) => Some(nodes as u64),
            None => None,
        };
        lemma_limits_behind(head, rest, i + 2, Limits { btime: time, ..limits });
        lemma_limits_behind(head, rest, i + 2, Limits { wtime: time, ..limits });
        lemma_limits_behind(head, rest, i + 2, Limits { binc: time, ..limits });
        lemma_limits_behind(head, rest, i + 2, Limits { winc: time, ..limits });
        lemma_limits_behind(head, rest, i + 2, Limits { byoyomi: time, ..limits });
        lemma_limits_behind(head, rest, i + 2, Limits { movetime: time, ..limits });
        lemma_limits_behind(head, rest, i + 2, Limits { depth, ..limits });
        lemma_limits_behind(head, rest, i + 2, Limits { nodes, ..limits });
        lemma_limits_behind(head, rest, i + 1, Limits { infinite: true, ..limits });
        lemma_limits_behind(head, rest, i + 1, Limits { ponder: true, ..limits });
        lemma_limits_behind(head, rest, i + 1, limits);
    }
}

/// A `go` is read word by word: a word that takes a value sets what it names to
/// the value behind it, or to nothing if that is no number; a word that takes none
/// sets its flag; any other word is passed over. What follows is read as if it
/// stood alone.
pub proof fn law_a_go_is_read_word_by_word(
    value: Seq<char>,
    word: Seq<char>,
    rest: Seq<Seq<char>>,
    limits: Limits,
    time: Option<Duration>,
    depth: Option<u32>,
    nodes: Option<u64>,
)
    requires
        unsigned(value, u64::MAX as int) is None ==> time is None && nodes is None,
        unsigned(value, u64::MAX as int) matches Some(n) ==> time == Some(Duration::of_millis(n))
            && nodes == Some(n as u64),
        unsigned(value, u32::MAX as int) is None ==> depth is None,
        unsigned(value, u32::MAX as int) matches Some(n) ==> depth == Some(n as u32),
        word != "btime"@ && word != "wtime"@ && word != "binc"@ && word != "winc"@ && word
            != "byoyomi"@ && word != "movetime"@ && word != "depth"@ && word != "nodes"@ && word
            != "infinite"@ && word != "ponder"@,
    ensures
        limits_from(Seq::empty(), 0, limits) == limits,
        limits_from(seq!["btime"@, value] + rest, 0, limits) == limits_from(
            rest,
            0,
            Limits { btime: time, ..limits },
        ),
        limits_from(seq!["wtime"@, value] + rest, 0, limits) == limits_from(
            rest,
            0,
            Limits { wtime: time, ..limits },
        ),
        limits_from(seq!["binc"@, value] + rest, 0, limits) == limits_from(
            rest,
            0,
            Limits { binc: time, ..limits },
        ),
        limits_from(seq!["winc"@, value] + rest, 0, limits) == limits_from(
            rest,
            0,
            Limits { winc: time, ..limits },
        ),
        limits_from(seq!["byoyomi"@, value] + rest, 0, limits) == limits_from(
            rest,
            0,
            Limits { byoyomi: time, ..limits },
        ),
        limits_from(seq!["movetime"@, value] + rest, 0, limits) == limits_from(
            rest,
            0,
            Limits { movetime: time, ..limits },
        ),
        limits_from(seq!["depth"@, value] + rest, 0, limits) == limits_from(
            rest,
            0,
            Limits { depth, ..limits },
        ),
        limits_from(seq!["nodes"@, value] + rest, 0, limits) == limits_from(
            rest,
            0,
            Limits { nodes, ..limits },
        ),
        limits_from(seq!["infinite"@] + rest, 0, limits) == limits_from(
            rest,
            0,
            Limits { infinite: true, ..limits },
        ),
        limits_from(seq!["ponder"@] + rest, 0, limits) == limits_from(
            rest,
            0,
            Limits { ponder: true, ..limits },
        ),
        limits_from(seq![word] + rest, 0, limits) == limits_from(rest, 0, limits),
{
    lemma_the_words_differ();
    lemma_a_pair_in_front("btime"@, value, rest, Limits { btime: time, ..limits });
    lemma_a_pair_in_front("wtime"@, value, rest, Limits { wtime: time, ..limits });
    lemma_a_pair_in_front("binc"@, value, rest, Limits { binc: time, ..limits });
    lemma_a_pair_in_front("winc"@, value, rest, Limits { winc: time, ..limits });
    lemma_a_pair_in_front("byoyomi"@, value, rest, Limits { byoyomi: time, ..limits });
    lemma_a_pair_in_front("movetime"@, value, rest, Limits { movetime: time, ..limits });
    lemma_a_pair_in_front("depth"@, value, rest, Limits { depth, ..limits });
    lemma_a_pair_in_front("nodes"@, value, rest, Limits { nodes, ..limits });
    lemma_a_word_in_front("infinite"@, rest, Limits { infinite: true, ..limits });
    lemma_a_word_in_front("ponder"@, rest, Limits { ponder: true, ..limits });
    lemma_a_word_in_front(word, rest, limits);
}

proof fn lemma_a_pair_in_front(
    first: Seq<char>,
    value: Seq<char>,
    rest: Seq<Seq<char>>,
    limits: Limits,
)
    ensures
        ({
            let all = seq![first, value] + rest;
            &&& all.len() >= 2
            &&& all[0] == first
            &&& number_at(all, 1, u32::MAX as int) == unsigned(value, u32::MAX as int)
            &&& number_at(all, 1, u64::MAX as int) == unsigned(value, u64::MAX as int)
            &&& limits_from(all, 2, limits) == limits_from(rest, 0, limits)
        }),
{
    lemma_limits_behind(seq![first, value], rest, 0, limits);
    assert((seq![first, value] + rest)[1] == value);
}

proof fn lemma_a_word_in_front(first: Seq<char>, rest: Seq<Seq<char>>, limits: Limits)
    ensures
        ({
            let all = seq![first] + rest;
            &&& all.len() >= 1
            &&& all[0] == first
            &&& limits_from(all, 1, limits) == limits_from(rest, 0, limits)
        }),
{
    lemma_limits_behind(seq![first], rest, 0, limits);
}

/// What a `go` does not name stays as it was, and a flag that is set stays set.
#[verifier::rlimit(30)]
pub proof fn law_what_is_not_named_stays(tokens: Seq<Seq<char>>, i: int, limits: Limits)
    requires
        0 <= i,
    ensures
        !tokens.contains("btime"@) ==> limits_from(tokens, i, limits).btime == limits.btime,
        !tokens.contains("wtime"@) ==> limits_from(tokens, i, limits).wtime == limits.wtime,
        !tokens.contains("binc"@) ==> limits_from(tokens, i, limits).binc == limits.binc,
        !tokens.contains("winc"@) ==> limits_from(tokens, i, limits).winc == limits.winc,
        !tokens.contains("byoyomi"@) ==> limits_from(tokens, i, limits).byoyomi == limits.byoyomi,
        !tokens.contains("movetime"@) ==> limits_from(tokens, i, limits).movetime == limits.movetime,
        !tokens.contains("depth"@) ==> limits_from(tokens, i, limits).depth == limits.depth,
        !tokens.contains("nodes"@) ==> limits_from(tokens, i, limits).nodes == limits.nodes,
        !tokens.contains("infinite"@) ==> limits_from(tokens, i, limits).infinite == limits.infinite,
        limits.infinite ==> limits_from(tokens, i, limits).infinite,
        !tokens.contains("ponder"@) ==> limits_from(tokens, i, limits).ponder == limits.ponder,
        limits.ponder ==> limits_from(tokens, i, limits).ponder,
    decreases tokens.len() + 1 - i,
{
    if i < tokens.len() {
        assert(tokens.contains(tokens[i]));
        lemma_the_words_differ();
        let time = millis_at(tokens, i + 1);
        law_what_is_not_named_stays(tokens, i + 2, Limits { btime: time, ..limits });
        law_what_is_not_named_stays(tokens, i + 2, Limits { wtime: time, ..limits });
        law_what_is_not_named_stays(tokens, i + 2, Limits { binc: time, ..limits });
        law_what_is_not_named_stays(tokens, i + 2, Limits { winc: time, ..limits });
        law_what_is_not_named_stays(tokens, i + 2, Limits { byoyomi: time, ..limits });
        law_what_is_not_named_stays(tokens, i + 2, Limits { movetime: time, ..limits });
        law_what_is_not_named_stays(
            tokens,
            i + 2,
            Limits {
                depth: match number_at(tokens, i + 1, u32::MAX as int) {
                    Some(depth) => Some(depth as u32),
                    None => None,
                },
                ..limits
            },
        );
        law_what_is_not_named_stays(
            tokens,
            i + 2,
            Limits {
                nodes: match number_at(tokens, i + 1, u64::MAX as int) {
                    Some(nodes) => Some(nodes as u64),
                    None => None,
                },
                ..limits
            },
        );
        law_what_is_not_named_stays(tokens, i + 1, Limits { infinite: true, ..limits });
        law_what_is_not_named_stays(tokens, i + 1, Limits { ponder: true, ..limits });
        law_what_is_not_named_stays(tokens, i + 1, limits);
    }
}

/// A line is known by its first word, whatever white space is around it: each
/// command by its own, and a line whose first word is none of them is not known.
/// Only a blank line is no command.
pub proof fn law_a_line_is_known_by_its_first_word(line: Seq<char>)
    ensures
        ({
            let text = trimmed(line);
            let word = text.take(word_len(text) as int);
            let rest = trimmed(text.skip(word_len(text) as int));
            &&& request_of(line) is None <==> text.len() == 0
            &&& text.len() > 0 && word == "usi"@ ==> request_of(line) == Some(Request::Usi)
            &&& text.len() > 0 && word == "isready"@ ==> request_of(line) == Some(Request::IsReady)
            &&& text.len() > 0 && word == "usinewgame"@ ==> request_of(line) == Some(
                Request::UsiNewGame,
            )
            &&& text.len() > 0 && word == "stop"@ ==> request_of(line) == Some(Request::Stop)
            &&& text.len() > 0 && word == "ponderhit"@ ==> request_of(line) == Some(
                Request::PonderHit,
            )
            &&& text.len() > 0 && word == "gameover"@ ==> request_of(line) == Some(
                Request::GameOver,
            )
            &&& text.len() > 0 && word == "quit"@ ==> request_of(line) == Some(Request::Quit)
            &&& text.len() > 0 && word == "position"@ ==> request_of(line) == Some(
                Request::Position(rest),
            )
            &&& text.len() > 0 && word == "setoption"@ ==> request_of(line) == Some(
                option_request(rest),
            )
            &&& text.len() > 0 && word == "go"@ && words(rest).len() > 0 && words(rest)[0]
                == "mate"@ ==> request_of(line) == Some(Request::GoMate)
            &&& text.len() > 0 && word == "go"@ && (words(rest).len() == 0 || words(rest)[0]
                != "mate"@) ==> request_of(line) == Some(
                Request::Go(limits_from(words(rest), 0, Limits::unlimited())),
            )
            &&& text.len() > 0 && word != "usi"@ && word != "isready"@ && word != "usinewgame"@
                && word != "stop"@ && word != "ponderhit"@ && word != "gameover"@ && word != "quit"@
                && word != "position"@ && word != "setoption"@ && word != "go"@ ==> request_of(line)
                == Some(Request::Unknown(text))
        }),
{
    reveal_strlit("go");
    reveal_strlit("usi");
    reveal_strlit("isready");
    reveal_strlit("usinewgame");
    reveal_strlit("stop");
    reveal_strlit("ponderhit");
    reveal_strlit("gameover");
    reveal_strlit("quit");
    reveal_strlit("setoption");
    reveal_strlit("position");
    assert("go"@.len() == 2 && "usi"@.len() == 3 && "stop"@.len() == 4 && "quit"@.len() == 4);
    assert("stop"@[0] == 's' && "quit"@[0] == 'q');
    assert("isready"@.len() == 7 && "usinewgame"@.len() == 10);
    assert("gameover"@.len() == 8 && "position"@.len() == 8);
    assert("gameover"@[0] == 'g' && "position"@[0] == 'p');
    assert("ponderhit"@.len() == 9 && "setoption"@.len() == 9);
    assert("ponderhit"@[0] == 'p' && "setoption"@[0] == 's');
}

/// Whether a word stands whole at a place of a text: with nothing but white space
/// or the end of the text on either side.
pub open spec fn stands_whole(text: Seq<char>, word: Seq<char>, at: int) -> bool {
    &&& 0 <= at
    &&& at + word.len() <= text.len()
    &&& text.subrange(at, at + word.len()) == word
    &&& at > 0 ==> is_space(text[at - 1])
    &&& at + word.len() < text.len() ==> is_space(text[at + word.len()])
}

/// A word is found where it stands whole first, and it is found if it stands whole
/// anywhere.
pub proof fn law_a_word_is_found_where_it_first_stands_whole(
    text: Seq<char>,
    word: Seq<char>,
    from: int,
)
    requires
        word.len() > 0,
        forall|i: int| 0 <= i < word.len() ==> !is_space(#[trigger] word[i]),
        0 <= from <= text.len(),
        from > 0 ==> is_space(text[from - 1]) || from == text.len() || is_space(text[from]),
    ensures
        match word_at(text, word, from) {
            Some(at) => {
                &&& from <= at
                &&& stands_whole(text, word, at)
                &&& forall|k: int| from <= k < at ==> !#[trigger] stands_whole(text, word, k)
            },
            None => forall|k: int| from <= k ==> !#[trigger] stands_whole(text, word, k),
        },
    decreases text.len() - from,
{
    if from < text.len() {
        if is_space(text[from]) {
            law_a_word_is_found_where_it_first_stands_whole(text, word, from + 1);
            assert(!stands_whole(text, word, from)) by {
                if stands_whole(text, word, from) {
                    assert(text.subrange(from, from + word.len())[0] == text[from]);
                }
            }
        } else {
            let rest = text.skip(from);
            lemma_word_len(rest);
            let n = word_len(rest) as int;
            assert(forall|i: int| 0 <= i < rest.len() ==> #[trigger] rest[i] == text[from + i]);
            let found = text.subrange(from, from + n);
            assert forall|k: int| from < k < from + n implies !#[trigger] stands_whole(
                text,
                word,
                k,
            ) by {
                assert(rest[k - 1 - from] == text[k - 1]);
            }
            if found == word {
                if n < rest.len() {
                    assert(rest[n] == text[from + n]);
                }
            } else {
                assert(!stands_whole(text, word, from)) by {
                    if stands_whole(text, word, from) {
                        let m = word.len() as int;
                        if m < n {
                            assert(rest[m] == text[from + m]);
                        } else if n < m {
                            assert(rest[n] == text[from + n]);
                            assert(text.subrange(from, from + m)[n] == text[from + n]);
                        }
                    }
                }
                if n < rest.len() {
                    assert(rest[n] == text[from + n]);
                }
                law_a_word_is_found_where_it_first_stands_whole(text, word, from + n);
            }
        }
    }
}

/// The name of an option is what stands between `name` and the word `value`, and
/// its value all that stands behind that word, each without the white space
/// around it. Without that word there is no value.
pub proof fn law_a_value_is_all_that_follows_its_word(text: Seq<char>)
    ensures
        ({
            let named = after_name(text);
            option_request(text) matches Request::SetOption { name, value } && match value {
                Some(value) => exists|at: int| {
                    &&& #[trigger] stands_whole(named, "value"@, at)
                    &&& forall|k: int| 0 <= k < at ==> !#[trigger] stands_whole(named, "value"@, k)
                    &&& name == trimmed(named.take(at))
                    &&& value == trimmed(named.skip(at + 5))
                },
                None => name == trimmed(named) && forall|k: int|
                    0 <= k ==> !#[trigger] stands_whole(named, "value"@, k),
            }
        }),
{
    let named = after_name(text);
    reveal_strlit("value");
    assert("value"@.len() == 5);
    assert forall|i: int| 0 <= i < "value"@.len() implies !is_space(#[trigger] "value"@[i]) by {
        assert("value"@[0] == 'v' && "value"@[1] == 'a' && "value"@[2] == 'l' && "value"@[3] == 'u'
            && "value"@[4] == 'e');
    }
    law_a_word_is_found_where_it_first_stands_whole(named, "value"@, 0);
    if let Some(at) = word_at(named, "value"@, 0) {
        assert(stands_whole(named, "value"@, at));
    }
}

/// The word `name` in front of an option is left out, with the white space behind
/// it; where something else stands there, all of the text is the option's.
pub proof fn law_the_word_name_is_left_out(text: Seq<char>)
    ensures
        ({
            let n = word_len(text) as int;
            &&& text.take(n) == "name"@ && n < text.len() ==> after_name(text) == trimmed_start(
                text.skip(n),
            )
            &&& text.take(n) != "name"@ || n >= text.len() ==> after_name(text) == text
        }),
{
}

} // verus!
