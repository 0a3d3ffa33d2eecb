use std::sync::atomic::{AtomicU64, Ordering};

use rinsai::search::budget::{allowance, Budget, DEFAULT_DEPTH, MAX_DEPTH, MOVE_HORIZON};
use rinsai::search::clock::{Clock, Duration, RealClock};
use rinsai::search::eval::evaluate;
use rinsai::search::game::Game;
use rinsai::search::job::{
    is_held_back, settle, BestMove, InfoSink, Limits, SearchJob, SearchSignals, SilentSink, StopSource,
};
use rinsai::search::model::POLL_INTERVAL_NODES;
use rinsai::search::moves::is_legal;
use rinsai::search::negamax::{cuts, NegamaxSearcher, Window};
use rinsai::search::score::Score;
use rinsai::search::tt::{Bound, Hit};
use rinsai::shogi::Color;
use rinsai::usi::output::Output;

const MATSURI: &str = "sfen l6nl/5+P1gk/2np1S3/p1p4Pp/3P2Sp1/1PPb2P1P/P5GS1/R8/LN4bKL w RGgsn5p 1";

#[derive(Default)]
struct Lines(Vec<String>);

impl InfoSink for Lines {
    fn info(&mut self, line: &str) {
        self.0.push(line.to_owned());
    }
}

impl Lines {
    fn take(&self) -> Vec<String> {
        self.0.clone()
    }
}

fn game(args: &str) -> Game {
    match Game::from_usi_position(args) {
        Ok(game) => game,
        Err(e) => panic!("`{args}`: {}", e.describe()),
    }
}

fn searcher() -> NegamaxSearcher<RealClock> {
    NegamaxSearcher::with_hash_mb(1)
}

/// Advances one step every time it is read.
struct TickClock {
    step: u128,
    reads: AtomicU64,
}

impl TickClock {
    fn reads(&self) -> u64 {
        self.reads.load(Ordering::Relaxed)
    }
}

impl Clock for TickClock {
    fn now(&self) -> Duration {
        Duration::from_nanos(self.step * u128::from(self.reads.fetch_add(1, Ordering::Relaxed)))
    }
}

fn ticking(step: Duration) -> NegamaxSearcher<TickClock> {
    NegamaxSearcher::with_clock(
        1,
        TickClock {
            step: step.as_nanos(),
            reads: AtomicU64::new(0),
        },
    )
}

fn micros(micros: u128) -> Duration {
    Duration::from_nanos(micros * 1_000)
}

fn secs(secs: u64) -> Duration {
    Duration::from_millis(secs * 1_000)
}

fn job(game: Game, limits: Limits) -> SearchJob<SearchSignals> {
    SearchJob {
        id: 0,
        game,
        limits,
        signals: SearchSignals::new(),
    }
}

fn depth(depth: u32) -> Limits {
    Limits {
        depth: Some(depth),
        ..Limits::default()
    }
}

fn run(args: &str, limits: Limits) -> (BestMove, Vec<String>) {
    let mut sink = Lines::default();
    let best = searcher().search(&job(game(args), limits), &mut sink);
    (best, sink.take())
}

fn field(line: &str, name: &str) -> i64 {
    let mut tokens = line.split_whitespace();
    while let Some(token) = tokens.next() {
        if token == name {
            return tokens
                .next()
                .and_then(|v| v.parse().ok())
                .unwrap_or_else(|| panic!("`{name}` has no number in {line:?}"));
        }
    }
    panic!("no `{name}` in {line:?}");
}

fn pv_of(line: &str) -> Vec<&str> {
    line.split(" pv ")
        .nth(1)
        .map(|tail| tail.split_whitespace().collect())
        .unwrap_or_default()
}

const MATE_LADDER: &str = "sfen 8k/9/6N2/6NN1/9/8p/9/9/K7L b";

fn assert_mate_in(args: &str, plies: i64) {
    let (_, lines) = run(args, depth(u32::try_from(plies).expect("a short mate")));
    let last = lines.last().expect("the search reported something");
    assert_eq!(field(last, "mate"), plies, "{last}");
    assert_mate_is_real(args, last, plies);
}

const RELIEF_FIXTURE: &str = "sfen l6nl/5+P1gk/2np1S3/p1p4Pp/3P2Sp1/1PPb2P1P/P5GS1/R8/LN4bKL \
                              w RGgsn5p 1 moves N*3b R*6g";

fn relieved_nodes() -> i64 {
    let (_, lines) = run(
        RELIEF_FIXTURE,
        Limits {
            depth: Some(64),
            nodes: Some(1),
            ..Limits::default()
        },
    );
    field(lines.last().expect("an iteration finished"), "nodes")
}

fn assert_the_relief_spans_a_poll() {
    let relieved = relieved_nodes();
    assert!(
        relieved > i64::try_from(POLL_INTERVAL_NODES).expect("fits"),
        "root move 0 is too cheap to poll inside: {relieved}"
    );
}

fn assert_mate_is_real(args: &str, line: &str, plies: i64) {
    let pv = pv_of(line);
    assert_eq!(i64::try_from(pv.len()).expect("short pv"), plies, "{line}");

    let mut replay = game(args);
    for token in pv {
        if let Err(e) = replay.push_usi_move(token) {
            panic!("the reported pv is not playable: {}", e.describe());
        }
    }
    assert!(
        replay.position().legal_moves().is_empty(),
        "the line the search called mate leaves legal moves: {line}"
    );
}

#[test]
fn finds_a_mate_at_every_distance_from_one_to_five() {
    for (moves, hand) in [(1, "-"), (2, "p"), (3, "2p"), (4, "3p"), (5, "4p")] {
        let args = format!("{MATE_LADDER} {hand} 1");
        assert!(
            !game(&args).in_check(),
            "the attacker, not the defender, is to move at the root"
        );
        assert_mate_in(&args, 2 * moves - 1);
    }
}

const SHUFFLE_TO_A_DRAW: &str = "sfen 4k4/9/9/9/R8/9/9/9/4K4 b - 1 moves \
     9e8e 5a4a 8e9e 4a5a 9e8e 5a4a 8e9e 4a5a 9e8e 5a4a 8e9e";

const SHUFFLE_ONE_CYCLE_SHORT: &str = "sfen 4k4/9/9/9/R8/9/9/9/4K4 b - 1 moves \
     9e8e 5a4a 8e9e 4a5a 9e8e 5a4a 8e9e";

const PERPETUAL_CHECK: &str = "sfen 4k4/9/9/9/4R4/9/9/9/K8 w - 1 moves \
     5a4a 5e4e 4a5a 4e5e 5a4a 5e4e 4a5a 4e5e 5a4a 5e4e 4a5a 4e5e";

const PERPETUAL_CHECK_ROOT: &str = "sfen 4k4/9/9/9/4R4/9/9/9/K8 w - 1";

fn cp_of(lines: &[String]) -> i64 {
    field(lines.last().expect("the search reported something"), "cp")
}

#[test]
fn the_fourth_occurrence_of_a_position_is_a_draw() {
    let fixture = game(SHUFFLE_TO_A_DRAW);
    assert!(
        evaluate(fixture.position()) < Score::cp(-900),
        "the fixture must leave the side to move a rook down"
    );
    let (_, lines) = run(SHUFFLE_TO_A_DRAW, depth(4));
    assert_eq!(cp_of(&lines), 0, "{lines:?}");
}

#[test]
fn the_third_occurrence_is_not_yet_a_repetition() {
    let (_, lines) = run(SHUFFLE_ONE_CYCLE_SHORT, depth(4));
    assert!(cp_of(&lines) < -900, "{lines:?}");
}

#[test]
fn the_side_that_gave_every_check_loses_the_repetition() {
    let fixture = game(PERPETUAL_CHECK);
    assert!(fixture.in_check(), "the fixture's side to move is in check");
    assert!(
        evaluate(fixture.position()) < Score::zero(),
        "the fixture must leave the side to move behind on material"
    );
    let (_, lines) = run(PERPETUAL_CHECK, depth(4));
    assert_eq!(
        cp_of(&lines),
        i64::from(Score::repetition().get()),
        "{lines:?}"
    );
}

#[test]
fn the_first_iteration_sees_the_repetition() {
    let (_, lines) = run(PERPETUAL_CHECK, depth(1));
    assert_eq!(field(&lines[0], "depth"), 1, "{lines:?}");
    assert_eq!(
        cp_of(&lines),
        i64::from(Score::repetition().get()),
        "{lines:?}"
    );
}

#[test]
fn the_published_line_stops_at_the_repeating_move() {
    let (_, lines) = run(PERPETUAL_CHECK, depth(4));
    let last = lines.last().expect("the search reported something");
    assert_eq!(pv_of(last).len(), 1, "{last}");
}

#[test]
fn a_repetition_verdict_does_not_survive_into_a_position_without_it() {
    let mut searcher = searcher();

    let mut sink = Lines::default();
    let _ = searcher.search(&job(game(PERPETUAL_CHECK), depth(4)), &mut sink);
    assert_eq!(
        cp_of(&sink.take()),
        i64::from(Score::repetition().get()),
        "the first search must reach the verdict, or the second proves nothing"
    );

    let mut sink = Lines::default();
    let _ = searcher.search(&job(game(PERPETUAL_CHECK_ROOT), depth(4)), &mut sink);
    let lines = sink.take();
    assert!(cp_of(&lines) < 0, "{lines:?}");
}

#[test]
fn completed_depth_leaves_out_the_iteration_a_budget_cut_short() {
    let limits = Limits {
        depth: Some(6),
        nodes: Some(20_000),
        ..Limits::default()
    };
    let (best, lines) = run(MATSURI, limits);
    let published = field(
        lines.last().expect("the search reported something"),
        "depth",
    );
    let BestMove::Play {
        completed_depth, ..
    } = best
    else {
        panic!("the fixture has legal moves");
    };
    assert!(
        i64::from(completed_depth) < published,
        "the cap did not interrupt an iteration, so this fixture proves \
         nothing: published depth {published}, completed {completed_depth}"
    );
}

#[test]
fn completed_depth_reaches_the_last_iteration_when_nothing_interrupts() {
    let (best, lines) = run(MATSURI, depth(4));
    let published = field(
        lines.last().expect("the search reported something"),
        "depth",
    );
    let BestMove::Play {
        completed_depth, ..
    } = best
    else {
        panic!("the fixture has legal moves");
    };
    assert_eq!(published, 4, "the depth limit was not reached");
    assert_eq!(i64::from(completed_depth), published);
}

#[test]
fn negamax_answers_with_a_legal_move() {
    let fixture = game("startpos");
    let (best, _) = run("startpos", depth(2));
    match best {
        BestMove::Play { mv, ponder, .. } => {
            assert!(is_legal(fixture.position(), mv));
            assert_eq!(ponder, None);
        }
        BestMove::Resign => panic!("the initial position has 30 legal moves"),
    }
}

#[test]
fn negamax_resigns_when_there_is_no_legal_move() {
    let (best, lines) = run("sfen 4k4/9/9/9/9/9/9/9/9 b - 1", depth(4));
    assert_eq!(best, BestMove::Resign);
    assert!(
        lines.is_empty(),
        "reported progress on a search it never ran"
    );
}

#[test]
fn a_checkmated_root_resigns() {
    let fixture = game("sfen 4k4/4G4/4G4/9/9/9/9/9/4K4 w - 1");
    assert!(fixture.in_check(), "the fixture is not even check");
    assert!(
        fixture.position().legal_moves().is_empty(),
        "the fixture is not mate"
    );
    let (best, _) = run("sfen 4k4/4G4/4G4/9/9/9/9/9/4K4 w - 1", depth(4));
    assert_eq!(best, BestMove::Resign);
}

#[test]
fn negamax_an_ordinary_go_answers_immediately() {
    assert!(matches!(run("startpos", depth(2)).0, BestMove::Play { .. }));
}

#[test]
fn negamax_go_ponder_is_not_the_searchers_business() {
    let limits = Limits {
        ponder: true,
        depth: Some(2),
        ..Limits::default()
    };
    assert!(matches!(run("startpos", limits).0, BestMove::Play { .. }));
}

/// Asks a search to stop from the third time it is asked on.
struct Later(AtomicU64);

impl StopSource for Later {
    fn stopped(&self) -> bool {
        self.0.fetch_add(1, Ordering::Relaxed) >= 2
    }
}

#[test]
fn an_infinite_search_stops_when_told() {
    let job = SearchJob {
        id: 0,
        game: game("startpos"),
        limits: Limits {
            infinite: true,
            ..Limits::default()
        },
        signals: Later(AtomicU64::new(0)),
    };
    let best = searcher().search(&job, &mut SilentSink);
    assert!(
        matches!(best, BestMove::Play { .. }),
        "an infinite search did not return after `stop`"
    );
}

#[test]
fn an_infinite_answer_is_held_back_even_with_nothing_to_search() {
    let limits = Limits {
        infinite: true,
        ..Limits::default()
    };
    let mut job = job(game("sfen 4k4/9/9/9/9/9/9/9/9 b - 1"), limits);
    assert_eq!(searcher().search(&job, &mut SilentSink), BestMove::Resign);
    assert!(is_held_back(&job.limits, &job.signals));
    job.signals.stop();
    assert!(!is_held_back(&job.limits, &job.signals));
}

fn a_capture_is_reachable_in_one_ply(args: &str) -> bool {
    let mut board = game(args).search_board();
    board.legal_moves().into_iter().any(|mv| {
        let undo = board.do_move(mv);
        let reachable = board
            .legal_moves()
            .into_iter()
            .any(|reply| board.piece_at(reply.to()).is_some());
        board.undo_move(mv, undo);
        reachable
    })
}

#[test]
fn the_root_and_every_leaf_count_as_one_node() {
    for args in ["startpos", "sfen 4k4/9/9/9/9/9/9/9/4K4 b - 1"] {
        assert!(
            !a_capture_is_reachable_in_one_ply(args),
            "the fixture stopped being capture-free, so this no longer measures the convention: {args}"
        );
        let expected = 1 + game(args).position().legal_moves().len() as i64;
        let (_, lines) = run(args, depth(1));
        assert_eq!(lines.len(), 1, "{args}");
        assert_eq!(field(&lines[0], "nodes"), expected, "{args}");
    }
}

#[test]
fn quiescence_resolves_captures_the_horizon_would_have_hidden() {
    assert!(a_capture_is_reachable_in_one_ply(MATSURI));
    let flat = 1 + game(MATSURI).position().legal_moves().len() as i64;
    let (_, lines) = run(MATSURI, depth(1));
    assert!(
        field(&lines[0], "nodes") > flat,
        "quiescence searched nothing: {}",
        lines[0]
    );
}

#[test]
fn the_horizon_effect_fingerprint_is_gone() {
    const FINGERPRINT: i64 = 215;
    for d in 1..=6 {
        let (_, lines) = run("startpos", depth(d));
        let last = lines.last().expect("an iteration finished");
        assert!(
            field(last, "cp").abs() < FINGERPRINT,
            "depth {d} still reports the horizon effect: {last}"
        );
    }
}

#[test]
fn quiescence_does_not_stand_pat_in_check() {
    let (_, lines) = run("sfen 4k4/9/4G4/9/9/9/9/9/4K4 b G 1", depth(1));
    let last = lines.last().expect("an iteration finished");
    assert_eq!(field(last, "mate"), 1, "{last}");
}

#[test]
fn quiescence_only_claims_mate_when_it_generated_every_move() {
    for d in 1..=4 {
        let (_, lines) = run("sfen 4k4/9/9/9/9/9/9/9/4K4 b - 1", depth(d));
        let last = lines.last().expect("an iteration finished");
        assert!(
            !last.contains(" score mate "),
            "quiescence invented a mate at depth {d}: {last}"
        );
    }
}

#[test]
fn seldepth_reaches_past_the_nominal_depth_where_captures_exist() {
    let (_, quiet) = run("sfen 4k4/9/9/9/9/9/9/9/4K4 b - 1", depth(3));
    let last = quiet.last().expect("an iteration finished");
    assert_eq!(field(last, "seldepth"), field(last, "depth"), "{last}");

    let (_, tactical) = run(MATSURI, depth(3));
    let last = tactical.last().expect("an iteration finished");
    assert!(
        field(last, "seldepth") > field(last, "depth"),
        "quiescence never went past the nominal depth: {last}"
    );
}

#[test]
fn quiescence_is_bounded_on_the_drop_heavy_fixture() {
    let (_, lines) = run(MATSURI, depth(4));
    let last = lines.last().expect("an iteration finished");
    assert!(
        field(last, "nodes") < 20_000_000,
        "quiescence ran away: {last}"
    );
}

#[test]
fn the_first_root_move_is_never_abandoned() {
    assert_the_relief_spans_a_poll();
    let (best, lines) = run(
        RELIEF_FIXTURE,
        Limits {
            movetime: Some(Duration::zero()),
            ..Limits::default()
        },
    );
    let first = lines.first().expect("depth 1 emitted no info line");
    assert_eq!(field(first, "depth"), 1, "{first}");
    let pv = pv_of(first);
    assert!(!pv.is_empty(), "{first}");
    match best {
        BestMove::Play { mv, .. } => assert_eq!(mv.to_usi_owned(), pv[0]),
        BestMove::Resign => panic!("a position with legal moves resigned"),
    }
}

#[test]
fn stop_gets_through_the_first_root_move() {
    assert_the_relief_spans_a_poll();
    let mut searcher = searcher();
    let mut job = job(game(RELIEF_FIXTURE), depth(64));
    job.signals.stop();

    let best = searcher.search(&job, &mut SilentSink);
    assert!(matches!(best, BestMove::Play { .. }));
    assert_eq!(
        searcher.nodes(),
        POLL_INTERVAL_NODES,
        "the first root move ran on past `stop`"
    );
}

#[test]
fn a_node_limit_is_honoured_inside_a_quiescence_subtree() {
    assert_the_relief_spans_a_poll();
    let floor = relieved_nodes();
    let poll = i64::try_from(POLL_INTERVAL_NODES).expect("fits");

    let (_, unlimited) = run(RELIEF_FIXTURE, depth(1));
    let whole = field(unlimited.last().expect("an iteration finished"), "nodes");
    assert!(
        floor < whole,
        "the relief covers the whole iteration, not root move 0: {floor} of {whole}"
    );

    let limit = floor + poll;
    let (_, lines) = run(
        RELIEF_FIXTURE,
        Limits {
            depth: Some(64),
            nodes: Some(u64::try_from(limit).expect("positive")),
            ..Limits::default()
        },
    );
    let nodes = field(lines.last().expect("an iteration finished"), "nodes");
    assert!(
        nodes >= limit,
        "the node limit bit before it was reached: {nodes} < {limit}"
    );
    assert!(
        nodes < limit + 4 * poll,
        "the node limit went unnoticed: {nodes}"
    );
}

#[test]
fn finds_the_mate_in_one() {
    let (_, lines) = run("sfen 4k4/9/4G4/9/9/9/9/9/4K4 b G 1", depth(4));
    let last = lines.last().expect("the search reported something");
    assert_eq!(field(last, "mate"), 1, "{last}");
    assert_eq!(pv_of(last).len(), 1, "{last}");
}

#[test]
fn the_reported_pv_is_playable() {
    for args in ["startpos", "startpos moves 7g7f 3c3d"] {
        let (best, lines) = run(args, depth(5));
        let last = lines.last().unwrap_or_else(|| panic!("nothing for {args}"));
        let pv = pv_of(last);
        assert!(pv.len() > 1, "a one-move line proves nothing: {last}");

        let mut replay = game(args);
        for token in &pv {
            if let Err(e) = replay.push_usi_move(token) {
                panic!("the pv in `{last}` is not playable: {}", e.describe());
            }
        }

        let BestMove::Play { mv, .. } = best else {
            panic!("{args} has legal moves")
        };
        assert!(is_legal(game(args).position(), mv), "{last}");
        assert_eq!(mv.to_usi_owned(), pv[0], "{last}");
    }
}

#[test]
fn a_reported_mate_is_a_real_mate() {
    let args = "sfen 4k4/9/4G4/9/9/9/9/9/4K4 b G 1";
    let (_, lines) = run(args, depth(4));
    let last = lines.last().expect("the search reported something");
    let plies = field(last, "mate");
    assert!(plies > 0, "{last}");
    assert_mate_is_real(args, last, plies);
}

#[test]
fn a_deep_search_still_answers_a_deadline() {
    let limits = Limits {
        depth: Some(64),
        movetime: Some(Duration::from_millis(20)),
        ..Limits::default()
    };
    let best = searcher().search(&job(game("startpos"), limits), &mut SilentSink);
    assert!(matches!(best, BestMove::Play { .. }));
}

#[test]
fn a_deep_search_still_answers_a_node_limit() {
    let limits = Limits {
        depth: Some(64),
        nodes: Some(5_000),
        ..Limits::default()
    };
    let (best, lines) = run("startpos", limits);
    assert!(matches!(best, BestMove::Play { .. }));

    let last = lines.last().expect("the search reported something");
    let nodes = field(last, "nodes");
    assert!(
        nodes < 5_000 + 4 * i64::try_from(POLL_INTERVAL_NODES).expect("fits"),
        "a 5 000 node search reported {nodes}"
    );
}

#[test]
fn one_info_line_per_iteration() {
    let (_, lines) = run("startpos", depth(3));
    assert_eq!(lines.len(), 3, "{lines:?}");
    for (i, line) in lines.iter().enumerate() {
        assert_eq!(field(line, "depth"), i as i64 + 1, "{line}");
        assert!(!pv_of(line).is_empty(), "{line}");
    }
}

#[test]
fn the_move_buffer_comes_back_empty() {
    let mut searcher = searcher();
    let _ = searcher.search(&job(game("startpos"), depth(3)), &mut SilentSink);
    assert_eq!(searcher.buffered(), 0);
}

#[test]
fn each_iteration_starts_from_the_last_answer() {
    let generated = game(MATSURI).search_board().legal_moves();

    let mut searcher = searcher();
    let best = searcher.search(&job(game(MATSURI), depth(3)), &mut SilentSink);
    let BestMove::Play { mv, .. } = best else {
        panic!("the fixture has legal moves")
    };
    assert_ne!(
        generated[0], mv,
        "the fixture's answer is now the first move generated, so this test \
         can no longer fail — find another"
    );
    assert_eq!(
        searcher.root_moves()[0],
        mv,
        "the root list was not re-seeded with the iteration's answer"
    );
}

#[test]
fn the_depth_ceiling_follows_the_budget_that_was_named() {
    let signals = SearchSignals::new();
    let ceiling = |limits: Limits| {
        Budget::new(
            &limits,
            &signals,
            Duration::zero(),
            Color::Black,
            Duration::zero(),
        )
        .max_depth
    };
    let second = Some(secs(1));

    assert_eq!(ceiling(Limits::default()), DEFAULT_DEPTH);
    assert_eq!(
        ceiling(Limits {
            byoyomi: Some(Duration::zero()),
            ..Limits::default()
        }),
        DEFAULT_DEPTH
    );

    for limits in [
        Limits {
            movetime: second,
            ..Limits::default()
        },
        Limits {
            byoyomi: second,
            ..Limits::default()
        },
        Limits {
            btime: second,
            wtime: second,
            byoyomi: Some(Duration::zero()),
            ..Limits::default()
        },
        Limits {
            nodes: Some(1_000),
            ..Limits::default()
        },
        Limits {
            infinite: true,
            ..Limits::default()
        },
    ] {
        assert_eq!(ceiling(limits), MAX_DEPTH, "{limits:?}");
    }

    assert_eq!(
        ceiling(Limits {
            depth: Some(3),
            movetime: second,
            ..Limits::default()
        }),
        3
    );
    assert_eq!(ceiling(depth(0)), 1);
    assert_eq!(ceiling(depth(u32::MAX)), MAX_DEPTH);
}

#[test]
fn a_stated_budget_deepens_past_the_default() {
    let limits = Limits {
        nodes: Some(300_000),
        ..Limits::default()
    };
    let (_, lines) = run("startpos", limits);
    let deepest = field(lines.last().expect("reported something"), "depth");
    assert!(
        deepest > i64::from(DEFAULT_DEPTH),
        "a 300 000 node budget only reached depth {deepest}"
    );
}

fn twice(
    mb: usize,
    args: &str,
    limits: Limits,
    between: impl FnOnce(&mut NegamaxSearcher<RealClock>),
) -> (i64, i64) {
    let mut searcher = NegamaxSearcher::with_hash_mb(mb);
    let mut first = Lines::default();
    let _ = searcher.search(&job(game(args), limits), &mut first);
    between(&mut searcher);
    let mut second = Lines::default();
    let _ = searcher.search(&job(game(args), limits), &mut second);

    let nodes = |lines: Vec<String>| field(lines.last().expect("an iteration finished"), "nodes");
    (nodes(first.take()), nodes(second.take()))
}

#[test]
fn a_repeated_search_reuses_what_the_last_one_proved() {
    let (first, second) = twice(1, "startpos", depth(6), |_| {});
    assert!(
        second < first,
        "the second search cost {second} against the first's {first}"
    );
}

#[test]
fn the_transposition_move_is_searched_first() {
    let (_, lines) = run("startpos moves 7g7f 3c3d 2g2f 4c4d 2f2e 2b3c", depth(7));
    let last = lines.last().expect("an iteration finished");
    assert!(
        field(last, "nodes") < 900_000,
        "the transposition move is not being tried first: {last}"
    );
}

#[test]
fn a_killer_is_searched_before_the_quiet_moves_around_it() {
    let (_, lines) = run(MATSURI, depth(4));
    let last = lines.last().expect("an iteration finished");
    assert!(
        field(last, "nodes") < 350_000,
        "the killers are not being tried early: {last}"
    );
}

#[test]
fn usinewgame_empties_the_table() {
    let (first, second) = twice(1, "startpos", depth(6), |s| s.new_game());
    assert_eq!(first, second, "entries survived `usinewgame`");
}

#[test]
fn resizing_the_hash_empties_the_table() {
    for mb in [1, 2] {
        let (first, second) = twice(mb, "startpos", depth(6), |s| {
            assert_eq!(s.set_hash_mb(mb), mb);
        });
        assert_eq!(first, second, "entries survived a resize at {mb} MiB");
    }
}

#[test]
fn a_resize_says_what_it_came_to() {
    let mut searcher = searcher();
    assert_eq!(searcher.set_hash_mb(3), 2);
    assert_eq!(searcher.set_hash_mb(1), 1);
}

#[test]
fn hashfull_reports_the_table_filling_up() {
    let (_, lines) = run("startpos", depth(6));
    assert_eq!(field(&lines[0], "hashfull"), 0, "{}", lines[0]);
    let last = lines.last().expect("an iteration finished");
    assert!(field(last, "hashfull") > 0, "{last}");
    assert!(field(last, "hashfull") <= 1_000, "{last}");
}

#[test]
fn a_hit_cuts_only_where_it_lands_on_or_past_a_window_edge() {
    let window = Window {
        alpha: Score::cp(-50),
        beta: Score::cp(50),
    };
    let hit = |bound, cp| Hit {
        score: Score::cp(cp),
        depth: 0,
        bound,
        mv: None,
    };

    for bound in [Bound::Upper, Bound::Lower, Bound::Exact] {
        for cp in [-49, 0, 49] {
            assert!(!cuts(&hit(bound, cp), &window), "{bound:?} at {cp} cp");
        }
    }
    for cp in [50, 51, 5_000] {
        assert!(cuts(&hit(Bound::Lower, cp), &window), "{cp} cp");
        assert!(cuts(&hit(Bound::Exact, cp), &window), "{cp} cp");
        assert!(!cuts(&hit(Bound::Upper, cp), &window), "{cp} cp");
    }
    for cp in [-50, -51, -5_000] {
        assert!(cuts(&hit(Bound::Upper, cp), &window), "{cp} cp");
        assert!(cuts(&hit(Bound::Exact, cp), &window), "{cp} cp");
        assert!(!cuts(&hit(Bound::Lower, cp), &window), "{cp} cp");
    }
}

#[test]
fn a_window_is_turned_round_as_a_whole() {
    let open = Window::open();
    assert_eq!(open.alpha, -Score::infinite());
    assert_eq!(open.beta, Score::infinite());
    let window = Window {
        alpha: Score::cp(-10),
        beta: Score::cp(70),
    };
    assert_eq!(
        window.flipped(),
        Window {
            alpha: Score::cp(-70),
            beta: Score::cp(10),
        }
    );
    assert_eq!(window.flipped().flipped(), window);
}

#[test]
fn a_derived_allowance_reads_the_clock_of_the_side_to_move() {
    let limits = Limits {
        btime: Some(secs(450)),
        wtime: Some(secs(45)),
        ..Limits::default()
    };
    assert_eq!(
        allowance(&limits, Color::Black, Duration::zero()),
        Some(secs(450).part_of(MOVE_HORIZON))
    );
    assert_eq!(
        allowance(&limits, Color::White, Duration::zero()),
        Some(secs(45).part_of(MOVE_HORIZON))
    );
}

#[test]
fn a_derived_allowance_spends_the_byoyomi_first() {
    let ten = secs(10);
    assert_eq!(
        allowance(
            &Limits {
                btime: Some(Duration::zero()),
                byoyomi: Some(ten),
                ..Limits::default()
            },
            Color::Black,
            Duration::zero(),
        ),
        Some(ten)
    );
}

#[test]
fn only_the_movers_clock_names_a_budget_for_the_mover() {
    let minute = Some(secs(60));
    let one_sided = Limits {
        wtime: minute,
        ..Limits::default()
    };
    assert_eq!(allowance(&one_sided, Color::Black, Duration::zero()), None);
    assert_eq!(
        allowance(&one_sided, Color::White, Duration::zero()),
        Some(secs(60).part_of(MOVE_HORIZON))
    );

    let signals = SearchSignals::new();
    let ceiling = |mover| {
        Budget::new(
            &one_sided,
            &signals,
            Duration::zero(),
            mover,
            Duration::zero(),
        )
        .max_depth
    };
    assert_eq!(ceiling(Color::Black), DEFAULT_DEPTH);
    assert_eq!(ceiling(Color::White), MAX_DEPTH);
}

#[test]
fn the_margin_comes_off_a_derived_allowance_and_not_off_movetime() {
    let margin = Duration::from_millis(30);
    let byoyomi = |d| Limits {
        byoyomi: Some(d),
        ..Limits::default()
    };

    let main = secs(300);
    assert_eq!(
        allowance(
            &Limits {
                btime: Some(main),
                ..Limits::default()
            },
            Color::Black,
            margin,
        ),
        Some(main.part_of(MOVE_HORIZON))
    );

    assert_eq!(
        allowance(
            &Limits {
                btime: Some(Duration::from_millis(100)),
                binc: Some(secs(5)),
                ..Limits::default()
            },
            Color::Black,
            margin,
        ),
        Some(Duration::from_millis(70))
    );

    assert_eq!(
        allowance(&byoyomi(Duration::from_millis(200)), Color::Black, margin),
        Some(Duration::from_millis(170))
    );
    assert_eq!(
        allowance(&byoyomi(Duration::from_millis(10)), Color::Black, margin),
        Some(Duration::zero())
    );

    for spend in [Duration::from_millis(10), Duration::zero()] {
        assert_eq!(
            allowance(
                &Limits {
                    movetime: Some(spend),
                    ..Limits::default()
                },
                Color::Black,
                margin,
            ),
            Some(spend)
        );
    }
}

#[test]
fn a_derived_allowance_ends_the_deepening() {
    let limits = Limits {
        btime: Some(Duration::from_millis(900)),
        wtime: Some(Duration::from_millis(900)),
        ..Limits::default()
    };
    let mut sink = Lines::default();
    let best = ticking(micros(20)).search(&job(game("startpos"), limits), &mut sink);
    let lines = sink.take();

    assert!(matches!(best, BestMove::Play { .. }));
    let reached = field(lines.last().expect("reported something"), "depth");
    assert!(
        reached > i64::from(DEFAULT_DEPTH),
        "the clock did not lift the depth ceiling: {reached}"
    );
}

#[test]
fn a_clock_free_budget_never_reads_the_clock() {
    let per_iteration = |limits| {
        let mut searcher = ticking(micros(20));
        let mut sink = Lines::default();
        searcher.search(&job(game("startpos"), limits), &mut sink);
        let published = u64::try_from(sink.take().len()).expect("fits");
        assert!(published > 0, "{limits:?} published nothing to count");
        assert_eq!(
            searcher.clock().reads(),
            1 + published,
            "{limits:?} read the clock from a poll"
        );
    };
    per_iteration(depth(4));
    per_iteration(Limits::default());
    per_iteration(Limits {
        nodes: Some(50_000),
        ..Limits::default()
    });
}

#[test]
fn the_delivery_margin_reaches_the_budget() {
    let limits = Limits {
        byoyomi: Some(Duration::from_millis(50)),
        ..Limits::default()
    };
    let spend = |margin| {
        let mut searcher = ticking(micros(20));
        searcher.set_delivery_margin(margin);
        searcher.search(&job(game("startpos"), limits), &mut SilentSink);
        searcher.nodes()
    };
    let margined = spend(Duration::from_millis(50));
    let unmargined = spend(Duration::zero());
    assert!(
        margined < unmargined,
        "the margin did not reach the search: {margined} against {unmargined}"
    );
}

#[test]
fn an_unclocked_go_falls_back_to_the_default_depth() {
    let (best, lines) = run("startpos", Limits::default());
    assert!(matches!(best, BestMove::Play { .. }));
    assert_eq!(
        i64::from(DEFAULT_DEPTH),
        field(lines.last().expect("reported something"), "depth")
    );
}

#[test]
fn the_same_search_is_told_the_same_but_for_the_time() {
    let untimed = |line: &String| -> Vec<String> {
        let mut tokens: Vec<String> = line.split_whitespace().map(str::to_owned).collect();
        for name in ["time", "nps"] {
            let at = tokens.iter().position(|t| t == name).expect("a field");
            tokens.remove(at + 1);
        }
        tokens
    };
    let (first_best, first) = run(MATSURI, depth(3));
    let (second_best, second) = run(MATSURI, depth(3));
    assert_eq!(first_best, second_best);
    assert_eq!(
        first.iter().map(untimed).collect::<Vec<_>>(),
        second.iter().map(untimed).collect::<Vec<_>>()
    );
}

#[test]
fn a_budget_is_over_when_its_nodes_or_its_time_are() {
    let signals = SearchSignals::new();
    let limits = Limits {
        nodes: Some(100),
        movetime: Some(Duration::from_millis(10)),
        ..Limits::default()
    };
    let budget = Budget::new(
        &limits,
        &signals,
        Duration::from_millis(5),
        Color::Black,
        Duration::zero(),
    );
    assert_eq!(budget.deadline, Some(Duration::from_millis(15)));
    assert!(!budget.is_over(99, None));
    assert!(!budget.is_over(99, Some(Duration::from_millis(14))));
    assert!(budget.is_over(99, Some(Duration::from_millis(15))));
    assert!(budget.is_over(100, None));
    let relief = budget.without_limits();
    assert!(!relief.is_over(100, Some(secs(100))));
    assert_eq!(relief.max_depth, budget.max_depth);
}

/// Reads the same time for ever.
struct FrozenClock;

impl Clock for FrozenClock {
    fn now(&self) -> Duration {
        secs(5)
    }
}

#[test]
fn a_deadline_that_has_passed_ends_the_search_with_its_first_iteration() {
    let limits = Limits {
        movetime: Some(Duration::zero()),
        ..Limits::default()
    };
    let mut lines = Lines::default();
    let mut searcher = NegamaxSearcher::with_clock(1, FrozenClock);
    let best = searcher.search(&job(game("startpos"), limits), &mut lines);
    assert!(
        matches!(best, BestMove::Play { completed_depth, .. } if completed_depth <= 1),
        "{best:?}"
    );
    assert!(lines.take().len() <= 1, "{:?}", lines.take());
}

#[test]
fn a_budget_is_over_at_its_deadline_and_not_before() {
    let signals = SearchSignals::new();
    let allowed = |millis: u64| Limits {
        movetime: Some(Duration::from_millis(millis)),
        ..Limits::default()
    };
    let margin = Duration::zero();
    let budget = Budget::new(&allowed(100), &signals, secs(5), Color::Black, margin);
    assert!(!budget.expired(0, &FrozenClock));
    let budget = Budget::new(&allowed(100), &signals, secs(4), Color::Black, margin);
    assert!(budget.expired(0, &FrozenClock));
    let budget = Budget::new(&allowed(1_000), &signals, secs(4), Color::Black, margin);
    assert!(budget.expired(0, &FrozenClock));
}

#[test]
fn every_line_that_is_told_reaches_the_sink() {
    let mut lines = Lines::default();
    let _ = searcher().search(&job(game("startpos"), depth(3)), &mut lines);
    let mut output = Output::new();
    output.line("before");
    let _ = searcher().search(&job(game("startpos"), depth(3)), &mut output);
    assert_eq!(lines.take().len(), 3);
    assert_eq!(output.lines().len(), 4);
    assert_eq!(output.lines()[0], "before");
    assert!(output.lines()[3].starts_with("info depth 3 "));
}

#[test]
fn a_table_of_the_size_asked_for_is_kept() {
    let mut searcher = NegamaxSearcher::with_hash_mb(2);
    assert_eq!(searcher.set_hash_mb(2), 2);
    assert_eq!(searcher.set_hash_mb(3), 2);
    assert_eq!(searcher.set_hash_mb(4), 4);
}

fn movetime(millis: u64) -> Limits {
    Limits {
        movetime: Some(Duration::from_millis(millis)),
        depth: Some(3),
        ..Limits::default()
    }
}

#[test]
fn a_search_whose_time_is_never_up_is_the_one_without_a_clock() {
    let mut frozen = NegamaxSearcher::with_clock(1, FrozenClock);
    let timed = frozen.search_from(secs(5), &job(game(MATSURI), movetime(1)), &mut SilentSink);
    let mut untimed = searcher();
    let best = untimed.search(&job(game(MATSURI), depth(3)), &mut SilentSink);
    assert_eq!(timed, best);
    assert_eq!(frozen.nodes(), untimed.nodes());
    assert!(frozen.nodes() > 4 * POLL_INTERVAL_NODES, "{}", frozen.nodes());
}

#[test]
fn a_search_that_began_too_long_ago_ends_with_its_first_iteration() {
    for (started, millis) in [(secs(4), 1_000), (secs(2), 3_000), (secs(0), 1)] {
        let mut searcher = NegamaxSearcher::with_clock(1, FrozenClock);
        let mut lines = Lines::default();
        let job = job(game(MATSURI), movetime(millis));
        let best = searcher.search_from(started, &job, &mut lines);
        assert!(
            matches!(best, BestMove::Play { completed_depth, .. } if completed_depth <= 1),
            "{best:?}"
        );
        assert_eq!(lines.take().len(), 1);
        assert!(searcher.nodes() <= 2 * POLL_INTERVAL_NODES, "{}", searcher.nodes());
    }
}

#[test]
fn a_line_tells_the_time_since_the_search_began() {
    let mut lines = Lines::default();
    let mut searcher = NegamaxSearcher::with_clock(1, FrozenClock);
    let _ = searcher.search_from(secs(3), &job(game("startpos"), depth(1)), &mut lines);
    assert_eq!(lines.take().len(), 1);
    assert!(lines.take()[0].contains(" time 2000 "), "{:?}", lines.take());
}

#[test]
fn a_new_game_forgets_the_table_and_nothing_else() {
    let mut searcher = searcher();
    let _ = searcher.search(&job(game("startpos"), depth(2)), &mut SilentSink);
    let (nodes, first) = (searcher.nodes(), searcher.root_moves()[0]);
    assert!(nodes > 0);
    searcher.new_game();
    assert_eq!(searcher.nodes(), nodes);
    assert_eq!(searcher.set_hash_mb(2), 2);
    assert_eq!(searcher.nodes(), nodes);
    assert_eq!(searcher.root_moves()[0], first);
}

#[test]
fn a_window_of_any_scores_is_flipped() {
    let window = Window {
        alpha: Score(i32::MIN + 1),
        beta: Score(40_000),
    };
    assert_eq!(
        window.flipped(),
        Window {
            alpha: Score(-40_000),
            beta: Score(i32::MAX),
        }
    );
}

#[test]
fn a_search_that_does_not_return_is_answered_with_resignation() {
    let asked = Limits {
        infinite: true,
        ponder: true,
        ..depth(3)
    };
    let (best, limits) = settle(None, &asked);
    assert_eq!(best, BestMove::Resign);
    assert!(!limits.infinite && limits.ponder);
    assert_eq!(limits.depth, Some(3));
    let found = searcher().search(&job(game("startpos"), depth(1)), &mut SilentSink);
    assert_eq!(settle(Some(found), &asked), (found, asked));
}
