use rinsai::position::PartialPosition;
use rinsai::search::game::Game;
use rinsai::search::job::{
    is_held_back, BestMove, Limits, SearchJob, SearchSignals, SilentSink, StopSource,
};
use rinsai::search::moves::is_legal;
use rinsai::search::placeholder::PlaceholderSearcher;
use rinsai::shogi::{Move, Square};

fn job(game: Game, limits: Limits) -> SearchJob<SearchSignals> {
    SearchJob {
        id: 0,
        game,
        limits,
        signals: SearchSignals::new(),
    }
}

#[test]
fn placeholder_answers_with_a_legal_move() {
    let game = Game::from_startpos();
    let job = job(game.clone(), Limits::default());
    match PlaceholderSearcher.search(&job, &mut SilentSink) {
        BestMove::Play { mv, ponder, .. } => {
            assert!(is_legal(game.position(), mv));
            assert_eq!(ponder, None);
        }
        BestMove::Resign => panic!("the initial position has 30 legal moves"),
    }
}

#[test]
fn placeholder_resigns_when_there_is_no_legal_move() {
    let partial =
        PartialPosition::from_usi("sfen 4k4/9/9/9/9/9/9/9/9 b - 1").expect("the fixture parses");
    let game = match Game::from_partial(partial) {
        Ok(game) => game,
        Err(e) => panic!("{}", e.describe()),
    };
    assert_eq!(
        PlaceholderSearcher.search(&job(game, Limits::default()), &mut SilentSink),
        BestMove::Resign
    );
}

#[test]
fn placeholder_go_ponder_is_not_the_searchers_business() {
    let job = job(
        Game::from_startpos(),
        Limits {
            ponder: true,
            ..Limits::default()
        },
    );
    assert!(matches!(
        PlaceholderSearcher.search(&job, &mut SilentSink),
        BestMove::Play { .. }
    ));
}

#[test]
fn placeholder_an_ordinary_go_answers_immediately() {
    let job = job(Game::from_startpos(), Limits::default());
    assert!(matches!(
        PlaceholderSearcher.search(&job, &mut SilentSink),
        BestMove::Play { .. }
    ));
}

#[test]
fn a_search_without_end_is_held_back_until_it_is_signalled() {
    let infinite = Limits {
        infinite: true,
        ..Limits::default()
    };
    let ponder = Limits {
        ponder: true,
        ..Limits::default()
    };
    for limits in [infinite, ponder] {
        let mut signals = SearchSignals::new();
        assert!(is_held_back(&limits, &signals));
        signals.stop();
        assert!(!is_held_back(&limits, &signals));

        let mut signals = SearchSignals::new();
        signals.ponderhit();
        assert!(!is_held_back(&limits, &signals));
    }
    assert!(!is_held_back(&Limits::default(), &SearchSignals::new()));
}

#[test]
fn a_signal_that_was_raised_stays_raised() {
    let mut signals = SearchSignals::default();
    assert!(signals.wait_until_signalled());
    assert!(!StopSource::stopped(&signals));
    signals.ponderhit();
    assert!(signals.ponder_hit());
    assert!(!signals.stopped());
    assert!(!signals.wait_until_signalled());
    signals.stop();
    assert!(signals.stopped() && signals.ponder_hit());
    assert!(StopSource::stopped(&signals));
}

#[test]
fn an_answer_reads_as_a_log_shows_it() {
    let mv = Move::Normal {
        from: Square::new(7, 7).expect("7g"),
        to: Square::new(7, 6).expect("7f"),
        promote: false,
    };
    let reply = Move::Normal {
        from: Square::new(2, 2).expect("2b"),
        to: Square::new(8, 8).expect("8h"),
        promote: true,
    };
    assert_eq!(BestMove::Resign.describe(), "resign");
    let play = |ponder| BestMove::Play {
        mv,
        ponder,
        completed_depth: 3,
    };
    assert_eq!(play(None).describe(), "7g7f");
    assert_eq!(play(Some(reply)).describe(), "7g7f (ponder 2b8h+)");
}

#[test]
fn the_placeholder_says_that_it_does_not_search() {
    let mut output = rinsai::usi::output::Output::new();
    let game = Game::from_usi_position("startpos").expect("parses");
    let _ = PlaceholderSearcher.search(&job(game, Limits::default()), &mut output);
    assert_eq!(
        output.lines(),
        &["info string rinsai has no search yet (E0 step 1): playing a legal move"]
    );
}
