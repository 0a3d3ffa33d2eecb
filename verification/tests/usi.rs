use std::collections::VecDeque;

use rinsai::search::budget::DEFAULT_DELIVERY_MARGIN_MS;
use rinsai::search::clock::Duration;
use rinsai::search::game::Game;
use rinsai::search::job::{
    is_held_back, BestMove, Limits, SearchJob, SearchSignals, SilentSink,
};
use rinsai::search::placeholder::PlaceholderSearcher;
use rinsai::search::tt::DEFAULT_HASH_MB;
use rinsai::shogi::{Move, Square};
use rinsai::usi::command::{parse_line, split_once_token, GuiCommand};
use rinsai::usi::engine::{Engine, Order, Reply, VERSION};
use rinsai::usi::options::{
    check, declared, spin, OptionError, OptionKind, OptionSpec, Options, Slot, SLOTS,
};
use rinsai::usi::output::Output;

// -------------------------------------------------------------------- commands

fn go(line: &str) -> Limits {
    match parse_line(line) {
        Some(GuiCommand::Go(limits)) => limits,
        other => panic!("expected a `go`, got {other:?}"),
    }
}

#[test]
fn blank_lines_are_not_commands() {
    assert_eq!(parse_line(""), None);
    assert_eq!(parse_line("   \t "), None);
}

#[test]
fn the_bare_commands_parse() {
    assert_eq!(parse_line("usi"), Some(GuiCommand::Usi));
    assert_eq!(parse_line("isready"), Some(GuiCommand::IsReady));
    assert_eq!(parse_line("usinewgame"), Some(GuiCommand::UsiNewGame));
    assert_eq!(parse_line("stop"), Some(GuiCommand::Stop));
    assert_eq!(parse_line("ponderhit"), Some(GuiCommand::PonderHit));
    assert_eq!(parse_line("quit"), Some(GuiCommand::Quit));
    assert_eq!(parse_line("gameover win"), Some(GuiCommand::GameOver));
}

#[test]
fn surrounding_whitespace_and_stray_tokens_are_tolerated() {
    assert_eq!(parse_line("  usi  "), Some(GuiCommand::Usi));
    assert_eq!(parse_line("quit now"), Some(GuiCommand::Quit));
    assert_eq!(
        parse_line("  position   startpos   moves  7g7f "),
        Some(GuiCommand::Position("startpos   moves  7g7f".to_owned()))
    );
}

#[test]
fn unknown_commands_keep_their_text_for_the_log() {
    assert_eq!(
        parse_line("frobnicate 1 2 3"),
        Some(GuiCommand::Unknown("frobnicate 1 2 3".to_owned()))
    );
}

#[test]
fn setoption_keeps_the_value_verbatim() {
    assert_eq!(
        parse_line("setoption name USI_Hash value 512"),
        Some(GuiCommand::SetOption {
            name: "USI_Hash".to_owned(),
            value: Some("512".to_owned())
        })
    );
    assert_eq!(
        parse_line("setoption name Eval Dir value /some path/with spaces"),
        Some(GuiCommand::SetOption {
            name: "Eval Dir".to_owned(),
            value: Some("/some path/with spaces".to_owned())
        })
    );
    assert_eq!(
        parse_line("setoption name ClearHash"),
        Some(GuiCommand::SetOption {
            name: "ClearHash".to_owned(),
            value: None
        })
    );
}

#[test]
fn setoption_splits_on_the_value_keyword_only_as_a_word() {
    assert_eq!(
        parse_line("setoption name Revalue value 3"),
        Some(GuiCommand::SetOption {
            name: "Revalue".to_owned(),
            value: Some("3".to_owned())
        })
    );
}

#[test]
fn split_once_token_agrees_with_a_reference_implementation() {
    fn reference(haystack: &str, token: &str) -> Option<(String, String)> {
        let mut cursor = 0;
        for word in haystack.split_whitespace() {
            let start = cursor + haystack[cursor..].find(word).expect("the word is present");
            if word == token {
                return Some((
                    haystack[..start].to_owned(),
                    haystack[start + word.len()..].to_owned(),
                ));
            }
            cursor = start + word.len();
        }
        None
    }

    let alphabet = ['v', 'a', 'l', 'u', 'e', ' ', '\t', 'あ'];
    let mut checked = 0usize;
    let mut stack = vec![String::new()];
    while let Some(s) = stack.pop() {
        for token in ["value", "a", "val", "あ"] {
            assert_eq!(
                split_once_token(&s, token),
                reference(&s, token),
                "disagreed on {s:?} / {token:?}"
            );
            checked += 1;
        }
        if s.chars().count() < 4 {
            for c in alphabet {
                let mut next = s.clone();
                next.push(c);
                stack.push(next);
            }
        }
    }
    assert!(checked > 10_000, "only {checked} cases");
}

#[test]
fn go_mate_is_its_own_command() {
    assert_eq!(parse_line("go mate 1000"), Some(GuiCommand::GoMate));
    assert_eq!(parse_line("go mate infinite"), Some(GuiCommand::GoMate));
}

#[test]
fn every_go_field_lands_in_limits() {
    assert_eq!(
        go("go btime 300000 wtime 299000 byoyomi 5000"),
        Limits {
            btime: Some(Duration::from_millis(300_000)),
            wtime: Some(Duration::from_millis(299_000)),
            byoyomi: Some(Duration::from_millis(5_000)),
            ..Limits::default()
        }
    );
    assert_eq!(
        go("go btime 60000 wtime 60000 binc 5000 winc 5000"),
        Limits {
            btime: Some(Duration::from_millis(60_000)),
            wtime: Some(Duration::from_millis(60_000)),
            binc: Some(Duration::from_millis(5_000)),
            winc: Some(Duration::from_millis(5_000)),
            ..Limits::default()
        }
    );
    assert_eq!(
        go("go movetime 2000"),
        Limits {
            movetime: Some(Duration::from_millis(2_000)),
            ..Limits::default()
        }
    );
    assert_eq!(
        go("go depth 8"),
        Limits {
            depth: Some(8),
            ..Limits::default()
        }
    );
    assert_eq!(
        go("go nodes 100000"),
        Limits {
            nodes: Some(100_000),
            ..Limits::default()
        }
    );
    assert_eq!(
        go("go infinite"),
        Limits {
            infinite: true,
            ..Limits::default()
        }
    );
    assert_eq!(go("go"), Limits::default());
}

#[test]
fn a_malformed_go_still_yields_the_fields_it_can() {
    assert_eq!(
        go("go btime 1000 flurb 7 wtime 2000"),
        Limits {
            btime: Some(Duration::from_millis(1_000)),
            wtime: Some(Duration::from_millis(2_000)),
            ..Limits::default()
        }
    );
    assert_eq!(go("go btime"), Limits::default());
    assert_eq!(
        go("go btime notanumber wtime 5"),
        Limits {
            wtime: Some(Duration::from_millis(5)),
            ..Limits::default()
        }
    );
}

// --------------------------------------------------------------------- options

#[test]
fn the_declared_lines_are_well_formed() {
    let lines: Vec<String> = SLOTS.iter().map(|&slot| declared(slot).describe()).collect();
    assert_eq!(
        lines,
        vec![
            "option name USI_Hash type spin default 256 min 1 max 65536",
            "option name DeliveryMargin type spin default 30 min 0 max 10000",
            "option name USI_Ponder type check default false",
        ]
    );
}

#[test]
fn the_advertised_default_is_what_gets_allocated() {
    let spec = SLOTS
        .iter()
        .map(|&slot| declared(slot))
        .find(|spec| spec.name == "USI_Hash")
        .expect("USI_Hash is declared");
    let OptionKind::Spin { default, min, .. } = spec.kind else {
        panic!("USI_Hash is a spin");
    };
    assert_eq!(default, DEFAULT_HASH_MB as i64);
    assert_eq!(Options::default().hash_mb, default);
    assert_eq!(Options::default().hash_mb(), DEFAULT_HASH_MB);
    assert_eq!(min, 1);

    let spec = SLOTS
        .iter()
        .map(|&slot| declared(slot))
        .find(|spec| spec.name == "DeliveryMargin")
        .expect("DeliveryMargin is declared");
    let OptionKind::Spin { default, .. } = spec.kind else {
        panic!("DeliveryMargin is a spin");
    };
    assert_eq!(default, DEFAULT_DELIVERY_MARGIN_MS as i64);
    assert_eq!(Options::default().delivery_margin_ms, default);
    assert_eq!(
        Options::default().delivery_margin(),
        Duration::from_millis(DEFAULT_DELIVERY_MARGIN_MS)
    );
}

#[test]
fn known_options_are_stored() {
    let mut options = Options::default();
    assert_eq!(options.set("USI_Hash", Some("512")), Ok(Slot::HashMb));
    assert_eq!(options.hash_mb, 512);
    assert_eq!(options.hash_mb(), 512);
    assert_eq!(options.set("USI_Ponder", Some("true")), Ok(Slot::Ponder));
    assert!(options.ponder);
}

#[test]
fn setting_one_option_does_not_disturb_the_others() {
    for spec in SLOTS.map(declared) {
        let mut options = Options::default();
        let value = match spec.kind {
            OptionKind::Spin { default, max, .. } => (default + 1).min(max).to_string(),
            OptionKind::Check { default } => (!default).to_string(),
        };
        if let Err(e) = options.set(spec.name, Some(&value)) {
            panic!("{}: {}", spec.name, e.describe());
        }

        assert!(
            options.differs_from_default(&spec),
            "setting {} to {value} left it reading as unchanged — check its (slot, kind) pair",
            spec.name
        );

        for other in SLOTS.map(declared).iter().filter(|o| o.slot != spec.slot) {
            assert!(
                !options.differs_from_default(other),
                "setting {} changed {}",
                spec.name,
                other.name
            );
        }
    }
}

#[test]
fn bad_input_is_reported_and_changes_nothing() {
    let mut options = Options::default();
    assert_eq!(
        options.set("Nonsense", Some("3")),
        Err(OptionError::Unknown("Nonsense".to_owned()))
    );
    assert_eq!(
        options.set("USI_Hash", None),
        Err(OptionError::MissingValue("USI_Hash"))
    );
    assert_eq!(
        options.set("USI_Hash", Some("lots")),
        Err(OptionError::BadValue {
            name: "USI_Hash",
            value: "lots".to_owned()
        })
    );
    assert_eq!(
        options.set("USI_Hash", Some("999999")),
        Err(OptionError::OutOfRange {
            name: "USI_Hash",
            value: 999_999
        })
    );
    assert_eq!(options.hash_mb, Options::default().hash_mb);
}

#[test]
fn a_refused_option_says_why() {
    let mut options = Options::default();
    for (name, value, text) in [
        ("Nonsense", Some("3"), "unknown option `Nonsense`"),
        ("USI_Hash", None, "option `USI_Hash` needs a value"),
        (
            "USI_Ponder",
            Some("maybe"),
            "option `USI_Ponder` cannot take `maybe`",
        ),
        (
            "DeliveryMargin",
            Some("-1"),
            "option `DeliveryMargin` is out of range at -1",
        ),
    ] {
        match options.set(name, value) {
            Ok(slot) => panic!("set {slot:?}"),
            Err(e) => assert_eq!(e.describe(), text),
        }
    }
}

#[test]
fn only_changed_unhonoured_options_are_reported() {
    let mut options = Options::default();
    assert!(options.unhonoured_changes().is_empty());

    assert!(options.set("USI_Ponder", Some("true")).is_ok());
    assert_eq!(
        options.unhonoured_changes(),
        vec![("USI_Ponder", "E2, with ponder")]
    );
}

#[test]
fn an_honoured_option_no_longer_discloses_itself() {
    let mut options = Options::default();
    assert!(options.set("USI_Hash", Some("512")).is_ok());
    assert!(
        options.unhonoured_changes().is_empty(),
        "{:?}",
        options.unhonoured_changes()
    );
}

// ----------------------------------------------------------------- scaffolding

#[derive(Clone, Copy, PartialEq, Eq)]
enum Mind {
    /// The move that comes first.
    Placeholder,
    /// Resigns at once.
    Ready,
    /// Resigns when it is signalled.
    Waiting,
}

/// An engine with a search desk that answers in order.
struct Driver {
    engine: Engine,
    mind: Mind,
    said: Vec<String>,
    warned: Vec<String>,
    queue: VecDeque<SearchJob<SearchSignals>>,
    started: u64,
    recorded: Vec<(u64, Limits, String)>,
}

impl Driver {
    fn new(mind: Mind) -> Driver {
        Driver {
            engine: Engine::new(),
            mind,
            said: Vec::new(),
            warned: Vec::new(),
            queue: VecDeque::new(),
            started: 0,
            recorded: Vec::new(),
        }
    }

    fn take(&mut self, reply: Reply) -> bool {
        self.said.extend(reply.said.lines().iter().cloned());
        self.warned.extend(reply.warned);
        for order in reply.orders {
            match order {
                Order::Submit { id, game, limits } => self.queue.push_back(SearchJob {
                    id,
                    game,
                    limits,
                    signals: SearchSignals::new(),
                }),
                Order::Stop(id) => {
                    if let Some(job) = self.queue.iter_mut().find(|job| job.id == id) {
                        job.signals.stop();
                    }
                }
                Order::PonderHit(id) => {
                    if let Some(job) = self.queue.iter_mut().find(|job| job.id == id) {
                        job.signals.ponderhit();
                    }
                }
                Order::NewGame | Order::SetHash(_) | Order::SetMargin(_) => {}
            }
        }
        self.work();
        reply.quit
    }

    fn work(&mut self) {
        while let Some(job) = self.queue.front() {
            if job.id > self.started {
                self.started = job.id;
                self.recorded.push((job.id, job.limits, job.game.sfen()));
            }
            let best = match self.mind {
                Mind::Placeholder => {
                    let best = PlaceholderSearcher.search(job, &mut SilentSink);
                    if is_held_back(&job.limits, &job.signals) {
                        return;
                    }
                    best
                }
                Mind::Ready => BestMove::Resign,
                Mind::Waiting => {
                    if job.signals.wait_until_signalled() {
                        return;
                    }
                    BestMove::Resign
                }
            };
            self.queue.pop_front();
            let reply = self.engine.answered(best);
            assert!(reply.orders.is_empty());
            self.said.extend(reply.said.lines().iter().cloned());
        }
    }

    fn run(mut self, script: &str) -> Driver {
        for line in script.split('\n') {
            let reply = self.engine.hear(line);
            if self.take(reply) {
                break;
            }
        }
        let reply = self.engine.shutdown();
        self.take(reply);
        assert!(self.queue.is_empty(), "a search is still waiting");
        assert!(!self.engine.searching());
        self
    }
}

fn dialogue(script: &str) -> Vec<String> {
    Driver::new(Mind::Placeholder).run(script).said
}

fn dialogue_capturing(script: &str, block: bool) -> (Vec<String>, Vec<(u64, Limits, String)>) {
    let mind = if block { Mind::Waiting } else { Mind::Ready };
    let driver = Driver::new(mind).run(script);
    (driver.said, driver.recorded)
}

fn bestmoves(lines: &[String]) -> Vec<&str> {
    lines
        .iter()
        .filter(|l| l.starts_with("bestmove"))
        .map(String::as_str)
        .collect()
}

fn game(args: &str) -> Game {
    match Game::from_usi_position(args) {
        Ok(game) => game,
        Err(e) => panic!("`{args}`: {}", e.describe()),
    }
}

fn assert_legal_after(position_args: &str, bestmove_line: &str) {
    let token = bestmove_line
        .strip_prefix("bestmove ")
        .unwrap_or_else(|| panic!("`{bestmove_line}` is not a bestmove line"));
    let mut game = game(position_args);
    if let Err(e) = game.push_usi_move(token) {
        panic!(
            "the engine answered `{token}`, which is not legal: {}",
            e.describe()
        );
    }
}

// ------------------------------------------------------------------- dialogues

#[test]
fn usi_handshake_ends_in_usiok() {
    let lines = dialogue("usi\nquit\n");
    assert_eq!(lines[0], format!("id name rinsai {VERSION}"));
    assert_eq!(lines[1], "id author sugyan");
    assert!(lines[2..lines.len() - 1]
        .iter()
        .all(|l| l.starts_with("option name ")));
    assert_eq!(lines.last().map(String::as_str), Some("usiok"));
}

#[test]
fn isready_answers_before_and_after_a_position() {
    let lines =
        dialogue("usi\nisready\nposition startpos moves 7g7f\nisready\ngo movetime 1\nquit\n");
    assert_eq!(lines.iter().filter(|l| *l == "readyok").count(), 2);
    assert_eq!(bestmoves(&lines).len(), 1);
    assert_legal_after("startpos moves 7g7f", bestmoves(&lines)[0]);
}

#[test]
fn a_go_without_a_handshake_still_answers() {
    let lines = dialogue("position startpos\ngo movetime 1\nquit\n");
    assert_eq!(bestmoves(&lines).len(), 1);
    assert_legal_after("startpos", bestmoves(&lines)[0]);
}

#[test]
fn an_sfen_root_is_accepted() {
    let sfen = "sfen lnsgkgsnl/1r5b1/ppppppppp/9/9/9/PPPPPPPPP/1B5R1/LNSGKGSNL b - 1";
    let lines = dialogue(&format!("position {sfen}\ngo movetime 1\nquit\n"));
    assert_eq!(bestmoves(&lines).len(), 1);
    assert_legal_after(sfen, bestmoves(&lines)[0]);
}

#[test]
fn moves_with_a_promotion_are_applied() {
    let args = "startpos moves 7g7f 3c3d 8h2b+ 3a2b";
    let lines = dialogue(&format!("position {args}\ngo movetime 1\nquit\n"));
    assert!(!lines.iter().any(|l| l.contains("error:")));
    assert_legal_after(args, bestmoves(&lines)[0]);
}

#[test]
fn usi_conformance_drops_take_the_side_to_move_colour() {
    let args = "sfen 9/9/9/9/9/9/9/9/K7k b Rp 1 moves R*9a P*9b";
    let (lines, recorded) =
        dialogue_capturing(&format!("position {args}\ngo movetime 1\nquit\n"), false);
    assert!(!lines.iter().any(|l| l.contains("error:")), "{lines:?}");
    assert_eq!(recorded[0].2, game(args).sfen());
}

#[test]
fn an_illegal_move_rejects_the_whole_position_command() {
    let script = "position startpos moves 7g7f\n\
                  position startpos moves 7g7f 3c3d 5e5d 8h2b+\n\
                  go movetime 1\nquit\n";
    let lines = dialogue(script);

    let errors: Vec<&String> = lines.iter().filter(|l| l.contains("error:")).collect();
    assert_eq!(errors.len(), 1, "{lines:?}");
    assert!(errors[0].starts_with("info string error: position rejected:"));
    assert!(errors[0].contains("move 3"), "{}", errors[0]);

    assert_legal_after("startpos moves 7g7f", bestmoves(&lines)[0]);
}

#[test]
fn an_unparseable_sfen_keeps_the_previous_position() {
    let script = "position startpos moves 7g7f\n\
                  position sfen not/a/real/sfen b - 1\n\
                  go movetime 1\nquit\n";
    let lines = dialogue(script);
    assert_eq!(lines.iter().filter(|l| l.contains("error:")).count(), 1);
    assert_legal_after("startpos moves 7g7f", bestmoves(&lines)[0]);
}

#[test]
fn no_legal_move_yields_bestmove_resign() {
    let lines = dialogue("position sfen 4k4/9/9/9/9/9/9/9/9 b - 1\ngo movetime 1\nquit\n");
    assert_eq!(bestmoves(&lines), vec!["bestmove resign"]);
}

#[test]
fn every_go_field_reaches_the_search() {
    let (lines, recorded) = dialogue_capturing(
        "position startpos\ngo btime 300000 wtime 299000 byoyomi 5000 depth 8 nodes 1000\nquit\n",
        false,
    );
    assert_eq!(bestmoves(&lines).len(), 1);

    let (id, limits, sfen) = recorded[0].clone();
    assert_eq!(id, 1);
    assert_eq!(limits.btime, Some(Duration::from_millis(300_000)));
    assert_eq!(limits.wtime, Some(Duration::from_millis(299_000)));
    assert_eq!(limits.byoyomi, Some(Duration::from_millis(5_000)));
    assert_eq!(limits.depth, Some(8));
    assert_eq!(limits.nodes, Some(1_000));
    assert!(!limits.infinite);
    assert!(sfen.starts_with("lnsgkgsnl"));
}

#[test]
fn usi_conformance_go_infinite_waits_for_stop() {
    let (lines, recorded) =
        dialogue_capturing("position startpos\ngo infinite\nstop\nquit\n", true);
    assert!(recorded[0].1.infinite);
    assert_eq!(bestmoves(&lines).len(), 1);
}

#[test]
fn go_mate_answers_checkmate_and_never_a_bestmove() {
    for line in ["go mate 1000", "go mate infinite"] {
        let lines = dialogue(&format!("position startpos\n{line}\nquit\n"));
        assert!(
            lines.contains(&"checkmate notimplemented".to_owned()),
            "{lines:?}"
        );
        assert!(bestmoves(&lines).is_empty(), "{lines:?}");
    }
}

#[test]
fn a_second_go_while_searching_yields_two_bestmoves_in_order() {
    let (lines, recorded) = dialogue_capturing(
        "position startpos\ngo infinite\ngo movetime 1\nquit\n",
        true,
    );
    assert_eq!(bestmoves(&lines).len(), 2);
    assert!(lines.iter().any(|l| l.contains("warning: `go` received")));
    assert_eq!(
        recorded.iter().map(|(id, ..)| *id).collect::<Vec<_>>(),
        vec![1, 2]
    );
}

#[test]
fn stop_and_ponderhit_are_silent_when_idle() {
    let lines = dialogue("usi\nstop\nponderhit\nquit\n");
    assert!(bestmoves(&lines).is_empty());
    assert!(!lines.iter().any(|l| l.starts_with("info")), "{lines:?}");
}

#[test]
fn gameover_during_a_search_stops_it() {
    let (lines, _) = dialogue_capturing(
        "position startpos\ngo infinite\ngameover lose\nquit\n",
        true,
    );
    assert_eq!(bestmoves(&lines).len(), 1);
}

#[test]
fn quit_during_a_search_terminates_and_still_answers() {
    let (lines, _) = dialogue_capturing("position startpos\ngo infinite\nquit\n", true);
    assert_eq!(bestmoves(&lines).len(), 1);
}

#[test]
fn quit_alone_says_nothing() {
    assert!(dialogue("quit\n").is_empty());
}

#[test]
fn end_of_input_behaves_like_quit() {
    let lines = dialogue("usi\nisready\n");
    assert_eq!(lines.last().map(String::as_str), Some("readyok"));
}

#[test]
fn usinewgame_is_silent_and_does_not_disturb_the_next_search() {
    let lines = dialogue("usi\nisready\nusinewgame\nposition startpos\ngo movetime 1\nquit\n");
    assert_eq!(bestmoves(&lines).len(), 1);
    assert_legal_after("startpos", bestmoves(&lines)[0]);
}

#[test]
fn an_option_that_is_set_and_not_acted_on_is_disclosed() {
    let driver = Driver::new(Mind::Placeholder).run(
        "usi\n\
         setoption name USI_Ponder value true\n\
         setoption name USI_Hash value 512\n\
         setoption name Nonsense value 3\n\
         isready\nquit\n",
    );
    let lines = driver.said;
    assert!(lines.contains(&"readyok".to_owned()));
    assert!(
        lines.contains(
            &"info string warning: option USI_Ponder is accepted but not yet used \
              (planned: E2, with ponder)"
                .to_owned()
        ),
        "{lines:?}"
    );
    assert!(!lines.iter().any(|l| l.contains("Nonsense")), "{lines:?}");
    assert_eq!(driver.warned, ["setoption: unknown option `Nonsense`"]);
}

#[test]
fn unknown_commands_are_ignored_without_a_word_on_stdout() {
    let lines = dialogue("usi\nfrobnicate 1 2 3\nisready\nquit\n");
    let usiok = lines.iter().position(|l| l == "usiok").expect("usiok");
    let readyok = lines.iter().position(|l| l == "readyok").expect("readyok");
    assert_eq!(readyok, usiok + 1, "{lines:?}");
}

#[test]
fn blank_lines_and_irregular_whitespace_are_tolerated() {
    let lines =
        dialogue("\n   \n  usi  \n  position   startpos   moves  7g7f \n\ngo movetime 1\nquit\n");
    assert!(!lines.iter().any(|l| l.contains("error:")), "{lines:?}");
    assert_eq!(bestmoves(&lines).len(), 1);
    assert_legal_after("startpos moves 7g7f", bestmoves(&lines)[0]);
}

#[test]
fn crlf_line_endings_work() {
    let lines = dialogue("usi\r\nisready\r\nposition startpos\r\ngo movetime 1\r\nquit\r\n");
    assert!(lines.contains(&"usiok".to_owned()), "{lines:?}");
    assert!(lines.contains(&"readyok".to_owned()), "{lines:?}");
    assert_eq!(bestmoves(&lines).len(), 1);
}

#[test]
fn one_bestmove_per_go() {
    for script in [
        "position startpos\ngo movetime 1\nquit\n",
        "position startpos\ngo movetime 1\ngo movetime 1\ngo movetime 1\nquit\n",
        "usi\nisready\nstop\nponderhit\ngo mate 100\nquit\n",
        "position startpos\ngo depth 1\ngameover draw\ngo depth 1\nquit\n",
    ] {
        let lines = dialogue(script);
        let gos = script
            .lines()
            .filter(|l| l.starts_with("go ") && !l.starts_with("go mate"))
            .count();
        assert_eq!(bestmoves(&lines).len(), gos, "script: {script:?}");
    }
}

#[test]
fn what_only_the_operator_needs_is_warned_of() {
    let driver = Driver::new(Mind::Waiting).run(
        "frobnicate 1 2\nstop\nponderhit\ngo infinite\nposition startpos\ngo depth 1\nquit\n",
    );
    assert_eq!(
        driver.warned,
        [
            "unknown command: frobnicate 1 2",
            "`stop` with no search running",
            "`ponderhit` with no ponder search running",
            "`position` arrived while a search was running",
            "warning: `go` received while a search was running",
        ]
    );
}

#[test]
fn a_ponder_search_is_released_by_its_hit() {
    let mut driver = Driver::new(Mind::Placeholder);
    let reply = driver.engine.hear("go ponder");
    driver.take(reply);
    assert!(driver.engine.searching());
    assert!(bestmoves(&driver.said).is_empty());
    let reply = driver.engine.hear("ponderhit");
    assert_eq!(reply.orders.len(), 1);
    driver.take(reply);
    assert_eq!(bestmoves(&driver.said).len(), 1);
    assert!(!driver.engine.searching());
}

#[test]
fn a_search_that_cannot_be_run_is_answered_by_resigning() {
    let mut engine = Engine::new();
    let reply = engine.hear("go depth 1");
    assert_eq!(reply.orders.len(), 1);
    assert!(engine.searching());
    let reply = engine.undelivered();
    assert_eq!(
        *reply.said.lines(),
        [
            "info string error: the search thread is gone; answering `resign`",
            "bestmove resign",
        ]
    );
    assert_eq!(
        reply.warned,
        ["error: the search thread is gone; answering `resign`"]
    );
    assert!(!engine.searching());
}

#[test]
fn options_that_are_acted_on_are_ordered() {
    let mut engine = Engine::new();
    let hash = engine.hear("setoption name USI_Hash value 64");
    assert!(matches!(hash.orders[..], [Order::SetHash(64)]));
    let margin = engine.hear("setoption name DeliveryMargin value 250");
    match margin.orders[..] {
        [Order::SetMargin(margin)] => assert_eq!(margin, Duration::from_millis(250)),
        _ => panic!("no margin was ordered"),
    }
    let ponder = engine.hear("setoption name USI_Ponder value true");
    assert!(ponder.orders.is_empty());
    let fresh = engine.hear("usinewgame");
    assert!(matches!(fresh.orders[..], [Order::NewGame]));
}

#[test]
fn an_answer_is_spelled_with_the_reply_it_expects() {
    let mv = Move::Normal {
        from: Square::new(7, 7).expect("7g"),
        to: Square::new(7, 6).expect("7f"),
        promote: false,
    };
    let reply = Move::Normal {
        from: Square::new(3, 3).expect("3c"),
        to: Square::new(3, 4).expect("3d"),
        promote: false,
    };
    let mut out = Output::new();
    out.bestmove(BestMove::Play {
        mv,
        ponder: None,
        completed_depth: 1,
    });
    out.bestmove(BestMove::Play {
        mv,
        ponder: Some(reply),
        completed_depth: 1,
    });
    out.bestmove(BestMove::Resign);
    out.info_string("hello");
    assert_eq!(
        *out.lines(),
        [
            "bestmove 7g7f",
            "bestmove 7g7f ponder 3c3d",
            "bestmove resign",
            "info string hello",
        ]
    );
}

// ------------------------------------------------------ declarations of any kind

fn undeclared(slot: Slot, kind: OptionKind) -> OptionSpec {
    OptionSpec {
        name: "Other",
        kind,
        slot,
        planned: None,
    }
}

fn bad(value: &str) -> OptionError {
    OptionError::BadValue {
        name: "Other",
        value: value.to_owned(),
    }
}

#[test]
fn a_number_is_read_within_the_bounds_of_any_declaration() {
    let kind = OptionKind::Spin {
        default: 0,
        min: -5,
        max: 5,
    };
    let spec = undeclared(Slot::Ponder, kind);
    assert_eq!(spin(&spec, "-5"), Ok(-5));
    assert_eq!(spin(&spec, "5"), Ok(5));
    assert_eq!(
        spin(&spec, "6"),
        Err(OptionError::OutOfRange {
            name: "Other",
            value: 6,
        })
    );
    assert_eq!(spin(&spec, "five"), Err(bad("five")));
    let switch = undeclared(Slot::HashMb, OptionKind::Check { default: true });
    assert_eq!(spin(&switch, "1"), Err(bad("1")));
}

#[test]
fn a_switch_is_read_only_for_an_option_that_is_one() {
    let switch = undeclared(Slot::HashMb, OptionKind::Check { default: true });
    assert_eq!(check(&switch, "true"), Ok(true));
    assert_eq!(check(&switch, "false"), Ok(false));
    assert_eq!(check(&switch, "TRUE"), Err(bad("TRUE")));
    let kind = OptionKind::Spin {
        default: 0,
        min: 0,
        max: 1,
    };
    let number = undeclared(Slot::Ponder, kind);
    assert_eq!(check(&number, "true"), Err(bad("true")));
    assert_eq!(
        check(&declared(Slot::HashMb), "true"),
        Err(OptionError::BadValue {
            name: "USI_Hash",
            value: "true".to_owned(),
        })
    );
}

#[test]
fn a_declaration_reads_as_what_it_says() {
    let kind = OptionKind::Spin {
        default: -1,
        min: -2,
        max: 3,
    };
    assert_eq!(
        undeclared(Slot::Ponder, kind).describe(),
        "option name Other type spin default -1 min -2 max 3"
    );
    assert_eq!(
        undeclared(Slot::HashMb, OptionKind::Check { default: true }).describe(),
        "option name Other type check default true"
    );
}

#[test]
fn a_slot_that_cannot_hold_its_control_counts_as_unchanged() {
    let options = Options {
        hash_mb: 7,
        delivery_margin_ms: 7,
        ponder: true,
    };
    let number = OptionKind::Spin {
        default: 8,
        min: 0,
        max: 9,
    };
    let switch = OptionKind::Check { default: false };
    assert!(options.differs_from_default(&undeclared(Slot::HashMb, number)));
    assert!(options.differs_from_default(&undeclared(Slot::DeliveryMarginMs, number)));
    assert!(options.differs_from_default(&undeclared(Slot::Ponder, switch)));
    assert!(!options.differs_from_default(&undeclared(Slot::HashMb, switch)));
    assert!(!options.differs_from_default(&undeclared(Slot::DeliveryMarginMs, switch)));
    assert!(!options.differs_from_default(&undeclared(Slot::Ponder, number)));
}
