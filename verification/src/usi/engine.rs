//! The engine's side of the protocol: what it makes of each command, and what it
//! says to the answer of each search.
//!
//! Every `go` is answered by exactly one `bestmove`, and nothing else is.

use vstd::prelude::*;

use crate::diagram::is_start;
use crate::search::clock::Duration;
use crate::search::game::{described, fault_text, Game, Record};
use crate::search::job::{BestMove, Limits};
use crate::shogi::lemma_place_names_square;
use crate::text::texts;
use crate::usi::command::{parse_line, request_of, GuiCommand, Request};
use crate::usi::options::{
    declared, law_a_number_is_set_as_it_is_spelled, option_fault_text, option_line, unhonoured,
    Options, Slot, SLOTS,
};
use crate::usi::output::{bestmove_text, Output};

verus! {

/// The version that the engine introduces itself with.
pub const VERSION: &'static str = "0.1.0";

/// What the engine wants done by whoever runs its searches.
pub enum Order {
    /// Run a search, with signals of its own, behind those that run or wait.
    Submit { id: u64, game: Game, limits: Limits },
    /// Raise the stop signal of a search.
    Stop(u64),
    /// Raise the ponder-hit signal of a search.
    PonderHit(u64),
    /// Forget what carries from game to game.
    NewGame,
    /// Make the table so many MiB.
    SetHash(usize),
    /// Keep so much back from the clock.
    SetMargin(Duration),
}

/// What an order asks.
#[verifier::ext_equal]
pub enum Errand {
    Submit { id: u64, game: Record, limits: Limits },
    Stop(u64),
    PonderHit(u64),
    NewGame,
    SetHash(int),
    SetMargin(Duration),
}

impl View for Order {
    type V = Errand;

    open spec fn view(&self) -> Errand {
        match *self {
            Order::Submit { id, game, limits } => Errand::Submit { id, game: game@, limits },
            Order::Stop(id) => Errand::Stop(id),
            Order::PonderHit(id) => Errand::PonderHit(id),
            Order::NewGame => Errand::NewGame,
            Order::SetHash(mb) => Errand::SetHash(mb as int),
            Order::SetMargin(margin) => Errand::SetMargin(margin),
        }
    }
}

/// What the engine does about something: the lines it says to the GUI, the
/// warnings for the operator, the orders, and whether it is to quit.
#[verifier::ext_equal]
pub struct Response {
    pub said: Seq<Seq<char>>,
    pub warned: Seq<Seq<char>>,
    pub orders: Seq<Errand>,
    pub quit: bool,
}

impl Response {
    /// Nothing.
    pub open spec fn none() -> Response {
        Response {
            said: Seq::empty(),
            warned: Seq::empty(),
            orders: Seq::empty(),
            quit: false,
        }
    }

    pub open spec fn say(self, line: Seq<char>) -> Response {
        Response { said: self.said.push(line), ..self }
    }

    pub open spec fn warn(self, message: Seq<char>) -> Response {
        Response { warned: self.warned.push(message), ..self }
    }

    pub open spec fn order(self, errand: Errand) -> Response {
        Response { orders: self.orders.push(errand), ..self }
    }
}

/// What the engine does about something.
pub struct Reply {
    pub said: Output,
    pub warned: Vec<String>,
    pub orders: Vec<Order>,
    pub quit: bool,
}

impl View for Reply {
    type V = Response;

    open spec fn view(&self) -> Response {
        Response {
            said: self.said@,
            warned: texts(self.warned@),
            orders: self.orders@.map(|i: int, order: Order| order@),
            quit: self.quit,
        }
    }
}

impl Reply {
    /// Whether every game that a search is ordered on is one.
    pub open spec fn well_formed(self) -> bool {
        forall|i: int|
            0 <= i < self.orders@.len() ==> (#[trigger] self.orders@[i] matches Order::Submit {
                game,
                ..
            } ==> game.well_formed())
    }

    /// Nothing.
    pub fn new() -> (r: Reply)
        ensures
            r@ == Response::none(),
            r.well_formed(),
    {
        let r = Reply {
            said: Output::new(),
            warned: Vec::new(),
            orders: Vec::new(),
            quit: false,
        };
        assert(r@ =~= Response::none());
        r
    }

    fn say(&mut self, line: &str)
        requires
            old(self).well_formed(),
        ensures
            final(self)@ == old(self)@.say(line@),
            final(self).well_formed(),
    {
        self.said.line(line);
    }

    fn say_info(&mut self, message: &str)
        requires
            old(self).well_formed(),
        ensures
            final(self)@ == old(self)@.say("info string "@ + message@),
            final(self).well_formed(),
    {
        self.said.info_string(message);
    }

    fn say_answer(&mut self, best: BestMove)
        requires
            old(self).well_formed(),
        ensures
            final(self)@ == old(self)@.say(bestmove_text(best)),
            final(self).well_formed(),
    {
        self.said.bestmove(best);
    }

    fn warn(&mut self, message: &str)
        requires
            old(self).well_formed(),
        ensures
            final(self)@ == old(self)@.warn(message@),
            final(self).well_formed(),
    {
        self.warned.push(message.to_owned());
        assert(texts(self.warned@) =~= texts(old(self).warned@).push(message@));
    }

    fn order(&mut self, order: Order)
        requires
            old(self).well_formed(),
            order matches Order::Submit { game, .. } ==> game.well_formed(),
        ensures
            final(self)@ == old(self)@.order(order@),
            final(self).well_formed(),
    {
        let ghost errand = order@;
        self.orders.push(order);
        assert(self@.orders =~= old(self)@.orders.push(errand));
    }
}

/// Where the engine stands: the game, the options, how many searches have not
/// answered yet, whether the last of them ponders, the number of the last `go`,
/// and the search that a signal would go to.
#[verifier::ext_equal]
pub struct Desk {
    pub game: Record,
    pub options: Options,
    pub outstanding: u64,
    pub pondering: bool,
    pub next_id: u64,
    pub current: Option<u64>,
}

/// Whether a record is that of a new game from the starting position.
pub open spec fn is_new_game(record: Record) -> bool {
    &&& record.moves == Seq::<crate::shogi::Move>::empty()
    &&& is_start(record.initial.diagram)
    &&& record.initial.ply == 1
    &&& record.initial.last_move is None
}

/// The record of a new game from the starting position.
pub open spec fn new_game() -> Record {
    choose|record: Record| is_new_game(record)
}

/// There is one new game.
proof fn lemma_one_new_game(record: Record)
    requires
        is_new_game(record),
    ensures
        record == new_game(),
{
    broadcast use lemma_place_names_square;

    let other = new_game();
    assert(is_new_game(other));
    let a = record.initial.diagram;
    let b = other.initial.diagram;
    assert(a.black_king->0.ix() == b.black_king->0.ix());
    assert(a.white_king->0.ix() == b.white_king->0.ix());
    assert(a =~= b);
    assert(record.initial =~= other.initial);
    assert(record =~= other);
}

/// The line that discloses an option that is set and not acted on.
pub open spec fn disclosure(name: Seq<char>, planned: Seq<char>) -> Seq<char> {
    "info string "@ + ("warning: option "@ + name + " is accepted but not yet used (planned: "@
        + planned + ")"@)
}

/// The first `n` disclosures, said one after the other.
pub open spec fn disclosed(
    response: Response,
    list: Seq<(Seq<char>, Seq<char>)>,
    n: int,
) -> Response
    decreases n,
{
    if n <= 0 {
        response
    } else {
        disclosed(response, list, n - 1).say(disclosure(list[n - 1].0, list[n - 1].1))
    }
}

impl Desk {
    /// An engine that was just started.
    pub open spec fn started() -> Desk {
        Desk {
            game: new_game(),
            options: Options::defaults(),
            outstanding: 0,
            pondering: false,
            next_id: 0,
            current: None,
        }
    }

    /// Whether a search has not answered yet.
    pub open spec fn searching(self) -> bool {
        self.outstanding > 0
    }

    /// The introduction, with every option.
    pub open spec fn greeted(self, response: Response) -> Response {
        response.say("id name rinsai "@ + VERSION@).say("id author sugyan"@).say(
            option_line(Slot::HashMb),
        ).say(option_line(Slot::DeliveryMarginMs)).say(option_line(Slot::Ponder)).say("usiok"@)
    }

    /// Ready, once what is set and not acted on is disclosed.
    pub open spec fn readied(self, response: Response) -> Response {
        let list = unhonoured(self.options, 3);
        disclosed(response, list, list.len() as int).say("readyok"@)
    }

    /// An option is set, and passed on where a search needs it.
    pub open spec fn option_set(
        self,
        name: Seq<char>,
        value: Option<Seq<char>>,
        response: Response,
    ) -> (Desk, Response) {
        match self.options.after(name, value) {
            Err(fault) => (self, response.warn("setoption: "@ + option_fault_text(fault))),
            Ok((slot, options)) => (
                Desk { options, ..self },
                match slot {
                    Slot::HashMb => response.order(
                        Errand::SetHash(
                            if 0 <= options.hash_mb <= usize::MAX {
                                options.hash_mb as int
                            } else {
                                256
                            },
                        ),
                    ),
                    Slot::DeliveryMarginMs => response.order(
                        Errand::SetMargin(
                            Duration::of_millis(
                                if options.delivery_margin_ms >= 0 {
                                    options.delivery_margin_ms as int
                                } else {
                                    30
                                },
                            ),
                        ),
                    ),
                    Slot::Ponder => response,
                },
            ),
        }
    }

    /// The game that a command describes takes the place of the one there is; a
    /// description that is refused changes nothing and is told.
    pub open spec fn position_set(self, args: Seq<char>, response: Response) -> (Desk, Response) {
        let (desk, told) = match described(args) {
            Ok(game) => (Desk { game, ..self }, response),
            Err(fault) => {
                let message = "error: position rejected: "@ + fault_text(fault);
                (self, response.warn(message).say("info string "@ + message))
            },
        };
        if self.searching() {
            (desk, told.warn("`position` arrived while a search was running"@))
        } else {
            (desk, told)
        }
    }

    /// The search that a signal goes to is stopped, if there is one; it still
    /// answers.
    pub open spec fn stopped(self, response: Response) -> (Desk, Response) {
        let desk = Desk { current: None, ..self };
        if self.current is Some && self.searching() {
            (
                Desk { pondering: false, ..desk },
                response.order(Errand::Stop(self.current->0)),
            )
        } else {
            (desk, response.warn("`stop` with no search running"@))
        }
    }

    /// A search is ordered. One that comes while another runs is a violation of
    /// the protocol: it is told, the other is stopped, and both will answer.
    pub open spec fn gone(self, limits: Limits, response: Response) -> (Desk, Response) {
        let (desk, told) = if self.searching() {
            let message = "warning: `go` received while a search was running"@;
            self.stopped(response.warn(message).say("info string "@ + message))
        } else {
            (self, response)
        };
        let id = if desk.next_id == u64::MAX {
            0
        } else {
            (desk.next_id + 1) as u64
        };
        (
            Desk {
                current: Some(id),
                pondering: limits.ponder,
                next_id: id,
                outstanding: if desk.outstanding == u64::MAX {
                    u64::MAX
                } else {
                    (desk.outstanding + 1) as u64
                },
                ..desk
            },
            told.order(Errand::Submit { id, game: desk.game, limits }),
        )
    }

    /// The ponder search is told that its move was played.
    pub open spec fn pondered(self, response: Response) -> (Desk, Response) {
        if self.pondering && self.searching() && self.current is Some {
            (
                Desk { pondering: false, ..self },
                response.order(Errand::PonderHit(self.current->0)),
            )
        } else {
            (self, response.warn("`ponderhit` with no ponder search running"@))
        }
    }

    /// The game is over: a search is stopped, and the next game is a new one.
    pub open spec fn game_over(self, response: Response) -> (Desk, Response) {
        let (desk, told) = if self.searching() {
            self.stopped(response)
        } else {
            (self, response)
        };
        (Desk { game: new_game(), ..desk }, told)
    }

    /// What a command comes to.
    pub open spec fn handled(self, request: Request, response: Response) -> (Desk, Response) {
        match request {
            Request::Usi => (self, self.greeted(response)),
            Request::IsReady => (self, self.readied(response)),
            Request::SetOption { name, value } => self.option_set(name, value, response),
            Request::UsiNewGame => (self, response.order(Errand::NewGame)),
            Request::Position(args) => self.position_set(args, response),
            Request::Go(limits) => self.gone(limits, response),
            Request::GoMate => (self, response.say("checkmate notimplemented"@)),
            Request::Stop => self.stopped(response),
            Request::PonderHit => self.pondered(response),
            Request::GameOver => self.game_over(response),
            Request::Quit => (self, Response { quit: true, ..response }),
            Request::Unknown(line) => (self, response.warn("unknown command: "@ + line)),
        }
    }

    /// What a line comes to. A blank one comes to nothing.
    pub open spec fn heard(self, line: Seq<char>, response: Response) -> (Desk, Response) {
        match request_of(line) {
            Some(request) => self.handled(request, response),
            None => (self, response),
        }
    }

    /// What the answer of a search comes to: a `bestmove`, if one is owed.
    pub open spec fn answered(self, best: BestMove, response: Response) -> (Desk, Response) {
        if self.outstanding > 0 {
            (
                Desk { outstanding: (self.outstanding - 1) as u64, ..self },
                response.say(bestmove_text(best)),
            )
        } else {
            (self, response)
        }
    }

    /// What it comes to that a search could not be run: the `bestmove` that is
    /// owed for it is a resignation.
    pub open spec fn undelivered(self, response: Response) -> (Desk, Response) {
        let message = "error: the search thread is gone; answering `resign`"@;
        if self.outstanding > 0 {
            (
                Desk {
                    outstanding: (self.outstanding - 1) as u64,
                    current: None,
                    pondering: false,
                    ..self
                },
                response.warn(message).say("info string "@ + message).say(
                    bestmove_text(BestMove::Resign),
                ),
            )
        } else {
            (self, response)
        }
    }

    /// The end: the search that a signal goes to is stopped.
    pub open spec fn closed(self, response: Response) -> (Desk, Response) {
        (
            Desk { current: None, ..self },
            match self.current {
                Some(id) => response.order(Errand::Stop(id)),
                None => response,
            },
        )
    }
}

/// The engine's side of the protocol.
pub struct Engine {
    game: Game,
    options: Options,
    outstanding: u64,
    pondering: bool,
    next_id: u64,
    current: Option<u64>,
}

impl View for Engine {
    type V = Desk;

    closed spec fn view(&self) -> Desk {
        Desk {
            game: self.game@,
            options: self.options,
            outstanding: self.outstanding,
            pondering: self.pondering,
            next_id: self.next_id,
            current: self.current,
        }
    }
}

impl Engine {
    pub closed spec fn well_formed(self) -> bool {
        self.game.well_formed()
    }

    /// An engine that was just started.
    pub fn new() -> (r: Engine)
        ensures
            r.well_formed(),
            r@ == Desk::started(),
    {
        let game = new_board();
        Engine {
            game,
            options: Options::default(),
            outstanding: 0,
            pondering: false,
            next_id: 0,
            current: None,
        }
    }

    /// Whether a search has not answered yet.
    pub fn searching(&self) -> (r: bool)
        ensures
            r == self@.searching(),
    {
        self.outstanding > 0
    }

    /// What the engine does about one line from the GUI.
    pub fn hear(&mut self, line: &str) -> (reply: Reply)
        requires
            old(self).well_formed(),
        ensures
            final(self).well_formed(),
            reply.well_formed(),
            (final(self)@, reply@) == old(self)@.heard(line@, Response::none()),
    {
        match parse_line(line) {
            Some(command) => self.handle(command),
            None => Reply::new(),
        }
    }

    /// What the engine does about one command.
    pub fn handle(&mut self, command: GuiCommand) -> (reply: Reply)
        requires
            old(self).well_formed(),
        ensures
            final(self).well_formed(),
            reply.well_formed(),
            (final(self)@, reply@) == old(self)@.handled(command@, Response::none()),
    {
        let mut reply = Reply::new();
        match command {
            GuiCommand::Usi => self.greet(&mut reply),
            GuiCommand::IsReady => self.ready(&mut reply),
            GuiCommand::SetOption { name, value } => {
                let given = match &value {
                    Some(value) => Some(value.as_str()),
                    None => None,
                };
                self.set_option(name.as_str(), given, &mut reply);
            },
            GuiCommand::UsiNewGame => reply.order(Order::NewGame),
            GuiCommand::Position(args) => self.set_position(args.as_str(), &mut reply),
            GuiCommand::Go(limits) => self.go(limits, &mut reply),
            GuiCommand::GoMate => reply.say("checkmate notimplemented"),
            GuiCommand::Stop => self.stop(&mut reply),
            GuiCommand::PonderHit => self.ponderhit(&mut reply),
            GuiCommand::GameOver => self.game_over(&mut reply),
            GuiCommand::Quit => reply.quit = true,
            GuiCommand::Unknown(line) => {
                let mut message = "unknown command: ".to_owned();
                message.append(line.as_str());
                reply.warn(message.as_str());
            },
        }
        reply
    }

    /// What the engine does about the answer of a search.
    pub fn answered(&mut self, best: BestMove) -> (reply: Reply)
        requires
            old(self).well_formed(),
        ensures
            final(self).well_formed(),
            reply.well_formed(),
            (final(self)@, reply@) == old(self)@.answered(best, Response::none()),
    {
        let mut reply = Reply::new();
        if self.outstanding > 0 {
            self.outstanding = self.outstanding - 1;
            reply.say_answer(best);
        }
        reply
    }

    /// What the engine does about a search that it ordered and that cannot be
    /// run.
    pub fn undelivered(&mut self) -> (reply: Reply)
        requires
            old(self).well_formed(),
        ensures
            final(self).well_formed(),
            reply.well_formed(),
            (final(self)@, reply@) == old(self)@.undelivered(Response::none()),
    {
        let mut reply = Reply::new();
        if self.outstanding > 0 {
            self.outstanding = self.outstanding - 1;
            self.current = None;
            self.pondering = false;
            let message = "error: the search thread is gone; answering `resign`";
            reply.warn(message);
            reply.say_info(message);
            reply.say_answer(BestMove::Resign);
        }
        reply
    }

    /// What the engine does when its input has ended.
    pub fn shutdown(&mut self) -> (reply: Reply)
        requires
            old(self).well_formed(),
        ensures
            final(self).well_formed(),
            reply.well_formed(),
            (final(self)@, reply@) == old(self)@.closed(Response::none()),
    {
        let mut reply = Reply::new();
        if let Some(id) = self.current {
            reply.order(Order::Stop(id));
        }
        self.current = None;
        reply
    }

    fn greet(&self, reply: &mut Reply)
        requires
            old(reply).well_formed(),
        ensures
            final(reply).well_formed(),
            final(reply)@ == self@.greeted(old(reply)@),
    {
        let mut name = "id name rinsai ".to_owned();
        name.append(VERSION);
        reply.say(name.as_str());
        reply.say("id author sugyan");
        reply.say(declared(Slot::HashMb).describe().as_str());
        reply.say(declared(Slot::DeliveryMarginMs).describe().as_str());
        reply.say(declared(Slot::Ponder).describe().as_str());
        reply.say("usiok");
    }

    fn ready(&self, reply: &mut Reply)
        requires
            old(reply).well_formed(),
        ensures
            final(reply).well_formed(),
            final(reply)@ == self@.readied(old(reply)@),
    {
        let list = self.options.unhonoured_changes();
        let ghost pairs = unhonoured(self.options, 3);
        let mut i: usize = 0;
        while i < list.len()
            invariant
                i <= list@.len(),
                pairs == list@.map(
                    |i: int, pair: (&'static str, &'static str)| (pair.0@, pair.1@),
                ),
                reply.well_formed(),
                reply@ == disclosed(old(reply)@, pairs, i as int),
            decreases list@.len() - i,
        {
            let (name, planned) = list[i];
            assert(pairs[i as int] == (name@, planned@));
            let mut message = "warning: option ".to_owned();
            message.append(name);
            message.append(" is accepted but not yet used (planned: ");
            message.append(planned);
            message.append(")");
            reply.say_info(message.as_str());
            i += 1;
        }
        reply.say("readyok");
    }

    fn set_option(&mut self, name: &str, value: Option<&str>, reply: &mut Reply)
        requires
            old(self).well_formed(),
            old(reply).well_formed(),
        ensures
            final(self).well_formed(),
            final(reply).well_formed(),
            (final(self)@, final(reply)@) == old(self)@.option_set(
                name@,
                match value {
                    Some(value) => Some(value@),
                    None => None,
                },
                old(reply)@,
            ),
    {
        match self.options.set(name, value) {
            Ok(Slot::HashMb) => reply.order(Order::SetHash(self.options.hash_mb())),
            Ok(Slot::DeliveryMarginMs) => reply.order(
                Order::SetMargin(self.options.delivery_margin()),
            ),
            Ok(Slot::Ponder) => {},
            Err(error) => {
                let mut message = "setoption: ".to_owned();
                message.append(error.describe().as_str());
                reply.warn(message.as_str());
            },
        }
    }

    fn set_position(&mut self, args: &str, reply: &mut Reply)
        requires
            old(self).well_formed(),
            old(reply).well_formed(),
        ensures
            final(self).well_formed(),
            final(reply).well_formed(),
            (final(self)@, final(reply)@) == old(self)@.position_set(args@, old(reply)@),
    {
        match Game::from_usi_position(args) {
            Ok(game) => self.game = game,
            Err(error) => {
                let mut message = "error: position rejected: ".to_owned();
                message.append(error.describe().as_str());
                reply.warn(message.as_str());
                reply.say_info(message.as_str());
            },
        }
        if self.searching() {
            reply.warn("`position` arrived while a search was running");
        }
    }

    fn go(&mut self, limits: Limits, reply: &mut Reply)
        requires
            old(self).well_formed(),
            old(reply).well_formed(),
        ensures
            final(self).well_formed(),
            final(reply).well_formed(),
            (final(self)@, final(reply)@) == old(self)@.gone(limits, old(reply)@),
    {
        if self.searching() {
            let message = "warning: `go` received while a search was running";
            reply.warn(message);
            reply.say_info(message);
            self.stop(reply);
        }
        let id: u64 = if self.next_id == u64::MAX {
            0
        } else {
            self.next_id + 1
        };
        self.next_id = id;
        self.current = Some(id);
        self.pondering = limits.ponder;
        if self.outstanding < u64::MAX {
            self.outstanding = self.outstanding + 1;
        }
        reply.order(Order::Submit { id, game: self.game.clone(), limits });
    }

    fn stop(&mut self, reply: &mut Reply)
        requires
            old(self).well_formed(),
            old(reply).well_formed(),
        ensures
            final(self).well_formed(),
            final(reply).well_formed(),
            (final(self)@, final(reply)@) == old(self)@.stopped(old(reply)@),
    {
        let current = self.current;
        self.current = None;
        let searching = self.searching();
        if let Some(id) = current {
            if searching {
                self.pondering = false;
                reply.order(Order::Stop(id));
                return;
            }
        }
        reply.warn("`stop` with no search running");
    }

    fn ponderhit(&mut self, reply: &mut Reply)
        requires
            old(self).well_formed(),
            old(reply).well_formed(),
        ensures
            final(self).well_formed(),
            final(reply).well_formed(),
            (final(self)@, final(reply)@) == old(self)@.pondered(old(reply)@),
    {
        let due = self.pondering && self.searching();
        if let Some(id) = self.current {
            if due {
                self.pondering = false;
                reply.order(Order::PonderHit(id));
                return;
            }
        }
        reply.warn("`ponderhit` with no ponder search running");
    }

    fn game_over(&mut self, reply: &mut Reply)
        requires
            old(self).well_formed(),
            old(reply).well_formed(),
        ensures
            final(self).well_formed(),
            final(reply).well_formed(),
            (final(self)@, final(reply)@) == old(self)@.game_over(old(reply)@),
    {
        if self.searching() {
            self.stop(reply);
        }
        self.game = new_board();
    }
}

fn new_board() -> (r: Game)
    ensures
        r.well_formed(),
        r@ == new_game(),
{
    let game = Game::from_startpos();
    proof {
        assert(game@.moves =~= Seq::empty());
        lemma_one_new_game(game@);
    }
    game
}

/// Whether a line answers a `go`.
pub open spec fn is_answer(line: Seq<char>) -> bool {
    line.len() >= 8 && line.take(8) == "bestmove"@
}

/// How many of the lines answer a `go`.
pub open spec fn answers(lines: Seq<Seq<char>>) -> nat
    decreases lines.len(),
{
    if lines.len() == 0 {
        0
    } else {
        answers(lines.drop_last()) + if is_answer(lines.last()) {
            1nat
        } else {
            0nat
        }
    }
}

/// How many of the orders are searches.
pub open spec fn searches(orders: Seq<Errand>) -> nat
    decreases orders.len(),
{
    if orders.len() == 0 {
        0
    } else {
        searches(orders.drop_last()) + if orders.last() is Submit {
            1nat
        } else {
            0nat
        }
    }
}

/// Something that happens to the engine.
pub enum Event {
    /// The GUI sent a line.
    Line(Seq<char>),
    /// A search answered.
    Answer(BestMove),
    /// A search that was ordered cannot be run.
    Lost,
}

impl Desk {
    /// What an event comes to.
    pub open spec fn met(self, event: Event) -> (Desk, Response) {
        match event {
            Event::Line(line) => self.heard(line, Response::none()),
            Event::Answer(best) => self.answered(best, Response::none()),
            Event::Lost => self.undelivered(Response::none()),
        }
    }

    /// Where the engine stands after the first `n` events.
    pub open spec fn after(self, events: Seq<Event>, n: int) -> Desk
        decreases n,
    {
        if n <= 0 {
            self
        } else {
            self.after(events, n - 1).met(events[n - 1]).0
        }
    }

    /// How many lines that answer a `go` were said in the first `n` events.
    pub open spec fn answers_in(self, events: Seq<Event>, n: int) -> nat
        decreases n,
    {
        if n <= 0 {
            0
        } else {
            self.answers_in(events, n - 1) + answers(
                self.after(events, n - 1).met(events[n - 1]).1.said,
            )
        }
    }

    /// How many searches were ordered in the first `n` events.
    pub open spec fn searches_in(self, events: Seq<Event>, n: int) -> nat
        decreases n,
    {
        if n <= 0 {
            0
        } else {
            self.searches_in(events, n - 1) + searches(
                self.after(events, n - 1).met(events[n - 1]).1.orders,
            )
        }
    }
}

/// Whether an event is a line that asks for a search.
pub open spec fn is_go(event: Event) -> bool {
    event matches Event::Line(line) && request_of(line) matches Some(request) && request is Go
}

/// How many of the first `n` events are lines that ask for a search.
pub open spec fn gos_in(events: Seq<Event>, n: int) -> nat
    decreases n,
{
    if n <= 0 {
        0
    } else {
        gos_in(events, n - 1) + if is_go(events[n - 1]) {
            1nat
        } else {
            0nat
        }
    }
}

proof fn lemma_say(response: Response, line: Seq<char>)
    ensures
        answers(response.say(line).said) == answers(response.said) + if is_answer(line) {
            1nat
        } else {
            0nat
        },
        response.say(line).orders == response.orders,
{
    assert(response.say(line).said.drop_last() =~= response.said);
}

proof fn lemma_order(response: Response, errand: Errand)
    ensures
        searches(response.order(errand).orders) == searches(response.orders) + if errand is Submit {
            1nat
        } else {
            0nat
        },
        response.order(errand).said == response.said,
{
    assert(response.order(errand).orders.drop_last() =~= response.orders);
}

/// What begins with another letter is no answer.
proof fn lemma_no_answer(line: Seq<char>)
    requires
        line.len() > 0,
        line[0] != 'b',
    ensures
        !is_answer(line),
{
    reveal_strlit("bestmove");
    if is_answer(line) {
        assert(line.take(8)[0] == "bestmove"@[0]);
    }
}

proof fn lemma_info_is_no_answer(message: Seq<char>)
    ensures
        !is_answer("info string "@ + message),
{
    reveal_strlit("info string ");
    let line = "info string "@ + message;
    assert(line[0] == 'i');
    lemma_no_answer(line);
}

proof fn lemma_bestmove_is_an_answer(best: BestMove)
    ensures
        is_answer(bestmove_text(best)),
{
    reveal_strlit("bestmove");
    reveal_strlit("bestmove ");
    reveal_strlit("bestmove resign");
    let line = bestmove_text(best);
    assert(line.take(8) =~= "bestmove"@);
}

proof fn lemma_option_line_is_no_answer(slot: Slot)
    ensures
        !is_answer(option_line(slot)),
{
    reveal_strlit("option name ");
    assert(option_line(slot)[0] == 'o');
    lemma_no_answer(option_line(slot));
}

proof fn lemma_greeting(desk: Desk, response: Response)
    ensures
        answers(desk.greeted(response).said) == answers(response.said),
        desk.greeted(response).orders == response.orders,
{
    reveal_strlit("id name rinsai ");
    reveal_strlit("id author sugyan");
    reveal_strlit("usiok");
    let name = "id name rinsai "@ + VERSION@;
    assert(name[0] == 'i');
    lemma_no_answer(name);
    lemma_no_answer("id author sugyan"@);
    lemma_no_answer("usiok"@);
    lemma_option_line_is_no_answer(Slot::HashMb);
    lemma_option_line_is_no_answer(Slot::DeliveryMarginMs);
    lemma_option_line_is_no_answer(Slot::Ponder);
    let r1 = response.say(name);
    let r2 = r1.say("id author sugyan"@);
    let r3 = r2.say(option_line(Slot::HashMb));
    let r4 = r3.say(option_line(Slot::DeliveryMarginMs));
    let r5 = r4.say(option_line(Slot::Ponder));
    lemma_say(response, name);
    lemma_say(r1, "id author sugyan"@);
    lemma_say(r2, option_line(Slot::HashMb));
    lemma_say(r3, option_line(Slot::DeliveryMarginMs));
    lemma_say(r4, option_line(Slot::Ponder));
    lemma_say(r5, "usiok"@);
}

proof fn lemma_disclosed(response: Response, list: Seq<(Seq<char>, Seq<char>)>, n: int)
    ensures
        answers(disclosed(response, list, n).said) == answers(response.said),
        disclosed(response, list, n).orders == response.orders,
    decreases n,
{
    if n > 0 {
        lemma_disclosed(response, list, n - 1);
        let message = "warning: option "@ + list[n - 1].0
            + " is accepted but not yet used (planned: "@ + list[n - 1].1 + ")"@;
        lemma_info_is_no_answer(message);
        lemma_say(
            disclosed(response, list, n - 1),
            disclosure(list[n - 1].0, list[n - 1].1),
        );
    }
}

proof fn lemma_stopped(desk: Desk, response: Response)
    ensures
        desk.stopped(response).1.said == response.said,
        searches(desk.stopped(response).1.orders) == searches(response.orders),
        desk.stopped(response).0.outstanding == desk.outstanding,
{
    if desk.current is Some {
        lemma_order(response, Errand::Stop(desk.current->0));
    }
}

/// What is said and ordered about a command, counted against the searches that
/// have not answered.
proof fn lemma_handled(desk: Desk, request: Request)
    requires
        desk.outstanding < u64::MAX,
    ensures
        answers(desk.handled(request, Response::none()).1.said) == 0,
        desk.handled(request, Response::none()).0.outstanding == desk.outstanding + searches(
            desk.handled(request, Response::none()).1.orders,
        ),
{
    let none = Response::none();
    assert(answers(none.said) == 0);
    assert(searches(none.orders) == 0);
    match request {
        Request::Usi => lemma_greeting(desk, none),
        Request::IsReady => {
            let list = unhonoured(desk.options, 3);
            lemma_disclosed(none, list, list.len() as int);
            reveal_strlit("readyok");
            lemma_no_answer("readyok"@);
            lemma_say(disclosed(none, list, list.len() as int), "readyok"@);
        },
        Request::SetOption { name, value } => {
            if let Ok((_, options)) = desk.options.after(name, value) {
                lemma_order(
                    none,
                    Errand::SetHash(
                        if 0 <= options.hash_mb <= usize::MAX {
                            options.hash_mb as int
                        } else {
                            256
                        },
                    ),
                );
                lemma_order(
                    none,
                    Errand::SetMargin(
                        Duration::of_millis(
                            if options.delivery_margin_ms >= 0 {
                                options.delivery_margin_ms as int
                            } else {
                                30
                            },
                        ),
                    ),
                );
            }
        },
        Request::UsiNewGame => lemma_order(none, Errand::NewGame),
        Request::Position(args) => {
            if let Err(fault) = described(args) {
                let message = "error: position rejected: "@ + fault_text(fault);
                lemma_info_is_no_answer(message);
                lemma_say(none.warn(message), "info string "@ + message);
            }
        },
        Request::Go(limits) => {
            let message = "warning: `go` received while a search was running"@;
            let told = none.warn(message).say("info string "@ + message);
            lemma_info_is_no_answer(message);
            lemma_say(none.warn(message), "info string "@ + message);
            lemma_stopped(desk, told);
            let (after, before) = if desk.searching() {
                desk.stopped(told)
            } else {
                (desk, none)
            };
            let id = if after.next_id == u64::MAX {
                0
            } else {
                (after.next_id + 1) as u64
            };
            lemma_order(before, Errand::Submit { id, game: after.game, limits });
        },
        Request::GoMate => {
            reveal_strlit("checkmate notimplemented");
            lemma_no_answer("checkmate notimplemented"@);
            lemma_say(none, "checkmate notimplemented"@);
        },
        Request::Stop => lemma_stopped(desk, none),
        Request::PonderHit => {
            if desk.current is Some {
                lemma_order(none, Errand::PonderHit(desk.current->0));
            }
        },
        Request::GameOver => lemma_stopped(desk, none),
        Request::Quit => {},
        Request::Unknown(_) => {},
    }
}

/// One event, counted.
proof fn lemma_met(desk: Desk, event: Event)
    requires
        desk.outstanding < u64::MAX,
    ensures
        answers(desk.met(event).1.said) + desk.met(event).0.outstanding == desk.outstanding
            + searches(desk.met(event).1.orders),
{
    let none = Response::none();
    assert(answers(none.said) == 0);
    assert(searches(none.orders) == 0);
    match event {
        Event::Line(line) => {
            if let Some(request) = request_of(line) {
                lemma_handled(desk, request);
            }
        },
        Event::Answer(best) => {
            lemma_bestmove_is_an_answer(best);
            lemma_say(none, bestmove_text(best));
        },
        Event::Lost => {
            let message = "error: the search thread is gone; answering `resign`"@;
            let told = none.warn(message).say("info string "@ + message);
            lemma_info_is_no_answer(message);
            lemma_say(none.warn(message), "info string "@ + message);
            lemma_bestmove_is_an_answer(BestMove::Resign);
            lemma_say(told, bestmove_text(BestMove::Resign));
        },
    }
}

/// Every `go` is answered once and nothing else is: whatever happens, a search
/// was ordered for each `go` so far, and the answers said so far and the searches
/// that have not answered make up as many. Once no search is outstanding, there
/// are as many answers as there were `go`s.
pub proof fn law_every_go_is_answered_once(events: Seq<Event>, n: int)
    requires
        0 <= n <= events.len(),
        n < u64::MAX,
    ensures
        Desk::started().answers_in(events, n) + Desk::started().after(events, n).outstanding
            == Desk::started().searches_in(events, n),
        Desk::started().searches_in(events, n) == gos_in(events, n),
        Desk::started().after(events, n).outstanding == 0 ==> Desk::started().answers_in(events, n)
            == gos_in(events, n),
        gos_in(events, n) <= n,
    decreases n,
{
    if n > 0 {
        law_every_go_is_answered_once(events, n - 1);
        let desk = Desk::started().after(events, n - 1);
        lemma_met(desk, events[n - 1]);
        lemma_a_search_for_each_go(desk, events[n - 1]);
    }
}

proof fn lemma_a_search_for_each_go(desk: Desk, event: Event)
    requires
        desk.outstanding < u64::MAX,
    ensures
        searches(desk.met(event).1.orders) == if is_go(event) {
            1nat
        } else {
            0nat
        },
{
    assert(searches(Response::none().orders) == 0);
    if let Event::Line(line) = event {
        if let Some(request) = request_of(line) {
            law_only_a_go_orders_a_search(desk, request);
        }
    }
}

/// A line that orders a search is a `go`, and every `go` orders one.
pub proof fn law_only_a_go_orders_a_search(desk: Desk, request: Request)
    requires
        desk.outstanding < u64::MAX,
    ensures
        searches(desk.handled(request, Response::none()).1.orders) == if request is Go {
            1nat
        } else {
            0nat
        },
{
    lemma_handled(desk, request);
    lemma_stopped(desk, Response::none());
}

/// Input that is refused changes nothing: a position that cannot be read, an
/// option that cannot be set, and a command that is not known.
pub proof fn law_bad_input_changes_nothing(desk: Desk, request: Request, response: Response)
    requires
        match request {
            Request::Position(args) => described(args) is Err,
            Request::SetOption { name, value } => desk.options.after(name, value) is Err,
            Request::Unknown(_) => true,
            _ => false,
        },
    ensures
        desk.handled(request, response).0 == desk,
        !desk.handled(request, response).1.quit || response.quit,
{
}

/// With no search running, `stop` and `ponderhit` say nothing and order nothing.
pub proof fn law_an_idle_engine_is_not_signalled(desk: Desk, response: Response)
    requires
        !desk.searching(),
    ensures
        desk.stopped(response).1.said == response.said,
        desk.stopped(response).1.orders == response.orders,
        desk.pondered(response).1.said == response.said,
        desk.pondered(response).1.orders == response.orders,
{
}

/// Whether two desks differ in nothing but which search a signal would go to and
/// whether that one ponders: the game, the options, the searches that have not
/// answered and the number of the last `go` are the same.
pub open spec fn same_business(a: Desk, b: Desk) -> bool {
    &&& a.game == b.game
    &&& a.options == b.options
    &&& a.outstanding == b.outstanding
    &&& a.next_id == b.next_id
}

/// While a search has not answered, `stop` raises its stop signal, once and at
/// once, and says nothing: the `bestmove` is left to the search. With no search
/// to stop, nothing is signalled.
pub proof fn law_a_running_search_is_stopped(desk: Desk, id: u64, response: Response)
    ensures
        ({
            let (after, reply) = desk.handled(Request::Stop, response);
            &&& desk.outstanding > 0 && desk.current == Some(id) ==> reply.orders
                == response.orders.push(Errand::Stop(id)) && reply.warned == response.warned
            &&& desk.outstanding == 0 || desk.current is None ==> reply.orders == response.orders
                && reply.warned.len() == response.warned.len() + 1
            &&& reply.said == response.said
            &&& reply.quit == response.quit
            &&& same_business(after, desk)
            &&& after.current is None
            &&& desk.outstanding > 0 && desk.current is Some ==> !after.pondering
        }),
{
}

/// `ponderhit` raises the signal of the search that ponders, once: a second one
/// finds nothing to signal. It says nothing.
pub proof fn law_a_ponder_hit_is_passed_on_once(desk: Desk, response: Response)
    ensures
        ({
            let (after, reply) = desk.handled(Request::PonderHit, response);
            &&& desk.pondering && desk.outstanding > 0 && desk.current is Some ==> reply.orders
                == response.orders.push(Errand::PonderHit(desk.current->0)) && !after.pondering
            &&& !desk.pondering || desk.outstanding == 0 || desk.current is None ==> reply.orders
                == response.orders && after == desk
            &&& reply.said == response.said
            &&& reply.quit == response.quit
            &&& same_business(after, desk)
            &&& after.current == desk.current
            &&& after.handled(Request::PonderHit, reply).1.orders == reply.orders
        }),
{
}

/// `go` orders a search of the game as it stands, with the limits that were named
/// and a number of its own, and signals go to that search from then on. One that
/// comes while another runs is told to the GUI in one line that is no answer, and
/// the other is stopped first.
pub proof fn law_a_go_searches_the_game_as_it_stands(
    desk: Desk,
    limits: Limits,
    response: Response,
)
    requires
        desk.outstanding < u64::MAX,
    ensures
        ({
            let (after, reply) = desk.handled(Request::Go(limits), response);
            &&& after.current is Some
            &&& after.current->0 != desk.next_id
            &&& desk.next_id < u64::MAX ==> after.current->0 == desk.next_id + 1
            &&& after.next_id == after.current->0
            &&& after.pondering == limits.ponder
            &&& after.outstanding == desk.outstanding + 1
            &&& after.game == desk.game
            &&& after.options == desk.options
            &&& reply.quit == response.quit
            &&& reply.orders.last() == (Errand::Submit {
                id: after.current->0,
                game: desk.game,
                limits,
            })
            &&& desk.outstanding == 0 ==> reply.orders.drop_last() == response.orders && reply.said
                == response.said
            &&& desk.outstanding > 0 ==> {
                &&& reply.said.drop_last() == response.said
                &&& !is_answer(reply.said.last())
                &&& desk.current matches Some(running) ==> reply.orders.drop_last()
                    == response.orders.push(Errand::Stop(running))
                &&& desk.current is None ==> reply.orders.drop_last() == response.orders
            }
        }),
{
    let message = "warning: `go` received while a search was running"@;
    lemma_info_is_no_answer(message);
    let (after, reply) = desk.handled(Request::Go(limits), response);
    let told = response.warn(message).say("info string "@ + message);
    assert(told.said.drop_last() =~= response.said);
    assert(told.said.last() == "info string "@ + message);
    if desk.outstanding == 0 {
        assert(reply.orders.drop_last() =~= response.orders);
    } else if desk.current is Some {
        assert(reply.orders.drop_last() =~= response.orders.push(
            Errand::Stop(desk.current->0),
        ));
    } else {
        assert(reply.orders.drop_last() =~= response.orders);
    }
}

/// `gameover` stops the search that runs, if one does, and sets up a new game
/// from the starting position; it says nothing.
pub proof fn law_a_game_that_is_over_makes_room(desk: Desk, response: Response)
    ensures
        ({
            let (after, reply) = desk.handled(Request::GameOver, response);
            &&& after.game == new_game()
            &&& after.options == desk.options
            &&& after.outstanding == desk.outstanding
            &&& after.next_id == desk.next_id
            &&& reply.said == response.said
            &&& reply.quit == response.quit
            &&& desk.outstanding > 0 && desk.current is Some ==> reply.orders
                == response.orders.push(Errand::Stop(desk.current->0)) && after.current is None
            &&& desk.outstanding == 0 || desk.current is None ==> reply.orders == response.orders
        }),
{
}

/// `position` sets the game that it describes, and nothing else; one that is
/// refused leaves the game, and is told to the GUI in one line that ends with why
/// and is no answer. Neither orders anything.
pub proof fn law_a_position_sets_the_game(desk: Desk, args: Seq<char>, response: Response)
    ensures
        ({
            let (after, reply) = desk.handled(Request::Position(args), response);
            &&& after == (Desk { game: after.game, ..desk })
            &&& reply.orders == response.orders
            &&& reply.quit == response.quit
            &&& described(args) matches Ok(game) ==> after.game == game && reply.said
                == response.said
            &&& described(args) matches Err(fault) ==> {
                &&& after.game == desk.game
                &&& reply.said.drop_last() == response.said
                &&& reply.said.last() == "info string "@ + ("error: position rejected: "@
                    + fault_text(fault))
                &&& !is_answer(reply.said.last())
            }
        }),
{
    if let Err(fault) = described(args) {
        let message = "error: position rejected: "@ + fault_text(fault);
        lemma_info_is_no_answer(message);
        assert(response.said.push("info string "@ + message).drop_last() =~= response.said);
    }
}

/// `isready` changes nothing and ends with `readyok`. Before that it says one line
/// for `USI_Ponder` if that is set to another value than its default, since
/// nothing acts on it yet; and no other.
pub proof fn law_readiness_discloses_what_is_not_acted_on(desk: Desk, response: Response)
    ensures
        ({
            let (after, reply) = desk.handled(Request::IsReady, response);
            &&& after == desk
            &&& reply.orders == response.orders
            &&& reply.quit == response.quit
            &&& reply.said.last() == "readyok"@
            &&& !desk.options.ponder ==> reply.said == response.said.push("readyok"@)
            &&& desk.options.ponder ==> reply.said == response.said.push(
                disclosure("USI_Ponder"@, "E2, with ponder"@),
            ).push("readyok"@)
        }),
{
    reveal_with_fuel(unhonoured, 4);
    let list = unhonoured(desk.options, 3);
    assert(SLOTS@[0] == Slot::HashMb && SLOTS@[1] == Slot::DeliveryMarginMs && SLOTS@[2]
        == Slot::Ponder);
    if desk.options.ponder {
        assert(list =~= seq![("USI_Ponder"@, "E2, with ponder"@)]);
        reveal_with_fuel(disclosed, 2);
    } else {
        assert(list =~= Seq::empty());
    }
}

/// `usi` is answered by the engine's name and author, one line for each option,
/// and `usiok` at the end; nothing changes and nothing is ordered.
pub proof fn law_the_introduction_ends_with_usiok(desk: Desk, response: Response)
    ensures
        ({
            let (after, reply) = desk.handled(Request::Usi, response);
            let n = response.said.len() as int;
            &&& after == desk
            &&& reply.orders == response.orders
            &&& reply.quit == response.quit
            &&& reply.said.len() == n + 6
            &&& reply.said.take(n) == response.said
            &&& reply.said[n] == "id name rinsai "@ + VERSION@
            &&& reply.said[n + 1] == "id author sugyan"@
            &&& reply.said[n + 2] == option_line(Slot::HashMb)
            &&& reply.said[n + 3] == option_line(Slot::DeliveryMarginMs)
            &&& reply.said[n + 4] == option_line(Slot::Ponder)
            &&& reply.said[n + 5] == "usiok"@
        }),
{
    let (after, reply) = desk.handled(Request::Usi, response);
    assert(reply.said.take(response.said.len() as int) =~= response.said);
}

/// An option that is set is passed on to the searches as it was set: the size of
/// the table and the margin, at once and once. A switch is only kept. An option
/// that cannot be set is told to the operator alone.
pub proof fn law_an_option_is_passed_on_as_it_is_set(
    desk: Desk,
    name: Seq<char>,
    value: Option<Seq<char>>,
    response: Response,
)
    ensures
        ({
            let (after, reply) = desk.handled(Request::SetOption { name, value }, response);
            &&& after == (Desk { options: after.options, ..desk })
            &&& reply.said == response.said
            &&& reply.quit == response.quit
            &&& desk.options.after(name, value) is Err ==> {
                &&& after.options == desk.options
                &&& reply.orders == response.orders
                &&& reply.warned.len() == response.warned.len() + 1
            }
            &&& desk.options.after(name, value) is Ok ==> {
                &&& reply.warned == response.warned
                &&& name == "USI_Hash"@ && usize::MAX >= 65_536 ==> reply.orders
                    == response.orders.push(Errand::SetHash(after.options.hash_mb as int))
                &&& name == "DeliveryMargin"@ ==> reply.orders == response.orders.push(
                    Errand::SetMargin(
                        Duration::of_millis(after.options.delivery_margin_ms as int),
                    ),
                )
                &&& name == "USI_Ponder"@ ==> reply.orders == response.orders
            }
        }),
{
    reveal_strlit("USI_Hash");
    reveal_strlit("DeliveryMargin");
    reveal_strlit("USI_Ponder");
    assert("USI_Hash"@.len() == 8);
    assert("DeliveryMargin"@.len() == 14);
    assert("USI_Ponder"@.len() == 10);
    law_a_number_is_set_as_it_is_spelled(desk.options, name, value);
}

/// `usinewgame` makes the searches forget, `go mate` is answered by the words of
/// an engine that solves no mates, `quit` ends the session, and a command that is
/// not known is told to the operator alone. None of them changes where the engine
/// stands; and only `quit` ends the session.
pub proof fn law_the_other_commands_change_nothing(desk: Desk, line: Seq<char>, response: Response)
    ensures
        desk.handled(Request::UsiNewGame, response).0 == desk,
        desk.handled(Request::UsiNewGame, response).1 == (Response {
            orders: response.orders.push(Errand::NewGame),
            ..response
        }),
        desk.handled(Request::GoMate, response).0 == desk,
        desk.handled(Request::GoMate, response).1 == (Response {
            said: response.said.push("checkmate notimplemented"@),
            ..response
        }),
        desk.handled(Request::Quit, response).0 == desk,
        desk.handled(Request::Quit, response).1 == (Response { quit: true, ..response }),
        desk.handled(Request::Unknown(line), response).0 == desk,
        desk.handled(Request::Unknown(line), response).1 == (Response {
            warned: response.warned.push("unknown command: "@ + line),
            ..response
        }),
{
}

/// Nothing but `quit` ends the session, and `quit` always does.
pub proof fn law_only_quit_ends_the_session(desk: Desk, request: Request)
    ensures
        desk.handled(request, Response::none()).1.quit <==> request is Quit,
{
    let none = Response::none();
    let list = unhonoured(desk.options, 3);
    lemma_disclosed_keeps_quit(none, list, list.len() as int);
}

proof fn lemma_disclosed_keeps_quit(
    response: Response,
    list: Seq<(Seq<char>, Seq<char>)>,
    n: int,
)
    ensures
        disclosed(response, list, n).quit == response.quit,
    decreases n,
{
    if n > 0 {
        lemma_disclosed_keeps_quit(response, list, n - 1);
    }
}

/// A line comes to what its command comes to; a blank one comes to nothing.
pub proof fn law_a_line_is_its_command(desk: Desk, line: Seq<char>, response: Response)
    ensures
        request_of(line) matches Some(request) ==> desk.heard(line, response) == desk.handled(
            request,
            response,
        ),
        request_of(line) is None ==> desk.heard(line, response) == (desk, response),
{
}

/// The answer of a search is said as it came, if one is owed, and one less is
/// owed afterwards; nothing else changes and nothing is ordered. An answer that
/// nobody asked for is not said.
pub proof fn law_an_answer_is_said_as_it_came(desk: Desk, best: BestMove, response: Response)
    ensures
        ({
            let (after, reply) = desk.answered(best, response);
            &&& reply.orders == response.orders
            &&& reply.warned == response.warned
            &&& reply.quit == response.quit
            &&& after == (Desk { outstanding: after.outstanding, ..desk })
            &&& desk.outstanding > 0 ==> {
                &&& after.outstanding == desk.outstanding - 1
                &&& reply.said == response.said.push(bestmove_text(best))
            }
            &&& desk.outstanding == 0 ==> after == desk && reply == response
        }),
{
}

/// A search that could not be run is answered by a resignation, if an answer is
/// owed, and no signal goes to it any more.
pub proof fn law_a_lost_search_resigns(desk: Desk, response: Response)
    ensures
        ({
            let (after, reply) = desk.undelivered(response);
            &&& reply.orders == response.orders
            &&& desk.outstanding > 0 ==> {
                &&& after.outstanding == desk.outstanding - 1
                &&& after.current is None
                &&& !after.pondering
                &&& after.game == desk.game
                &&& after.options == desk.options
                &&& reply.said.len() == response.said.len() + 2
                &&& reply.said.last() == "bestmove resign"@
                &&& !is_answer(reply.said[response.said.len() as int])
            }
            &&& desk.outstanding == 0 ==> after == desk && reply == response
        }),
{
    lemma_info_is_no_answer("error: the search thread is gone; answering `resign`"@);
}

/// At the end, the search that a signal goes to is stopped, and nothing is said.
pub proof fn law_the_end_stops_the_search(desk: Desk, response: Response)
    ensures
        ({
            let (after, reply) = desk.closed(response);
            &&& reply.said == response.said
            &&& desk.current matches Some(id) ==> reply.orders == response.orders.push(
                Errand::Stop(id),
            )
            &&& desk.current is None ==> reply.orders == response.orders
            &&& same_business(after, desk)
            &&& after.current is None
        }),
{
}

/// An engine that was just started has a new game from the starting position, the
/// declared defaults, and no search to answer for.
pub proof fn law_the_engine_starts_idle()
    ensures
        Desk::started().outstanding == 0,
        Desk::started().current is None,
        !Desk::started().pondering,
        Desk::started().game == new_game(),
        Desk::started().options.hash_mb == 256,
        Desk::started().options.delivery_margin_ms == 30,
        !Desk::started().options.ponder,
{
}

} // verus!
