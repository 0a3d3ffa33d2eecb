//! Fixed positions searched to a fixed depth, and the nodes that it takes. A
//! change that moves a count without meaning to is a mistake.

use vstd::prelude::*;

use crate::board::legal_moves;
use crate::search::clock::{sum_of, Clock, Duration, RealClock};
use crate::search::game::{described, fault_text, Game, Record};
use crate::search::info::{nps, rate};
use crate::search::job::{Limits, SearchJob, SearchSignals, SilentSink};
use crate::search::model::Leash;
use crate::search::negamax::{is_timed, played_out, NegamaxSearcher};
use crate::search::tt::{is_power_floor, wanted_entries, Entry, Memory, FALLBACK_ENTRIES};
use crate::text::{digits, push_number, texts};

verus! {

/// The positions, as a `position` command describes them.
pub const POSITIONS: [&'static str; 7] = [
    "startpos",
    "startpos moves 7g7f 3c3d",
    "startpos moves 2g2f 8c8d 2f2e 8d8e",
    "startpos moves 7g7f 3c3d 2g2f 4c4d 2f2e 2b3c",
    "sfen l6nl/5+P1gk/2np1S3/p1p4Pp/3P2Sp1/1PPb2P1P/P5GS1/R8/LN4bKL w RGgsn5p 1",
    "sfen 4k4/9/9/9/9/9/9/9/4K4 b - 1",
    "sfen 4k4/9/4G4/9/9/9/9/9/4K4 b G 1",
];

/// The depth at which the counts were frozen.
pub const BENCH_DEPTH: u32 = 4;

/// The size of the table, whatever an operator has set.
pub const BENCH_HASH_MB: usize = 16;

/// The nodes that each position takes at [`BENCH_DEPTH`].
pub const EXPECTED: [u64; 7] = [3_525, 6_497, 4_194, 8_292, 249_462, 175, 99];

/// What one position took.
#[derive(Clone, Copy, Debug)]
pub struct Row {
    pub args: &'static str,
    pub nodes: u64,
    pub elapsed: Duration,
}

/// A table of so many slots that nothing was stored in.
pub open spec fn blank_memory(slots: nat) -> Memory {
    Memory { slots: Seq::new(slots, |i: int| Entry::vacant()), generation: 0 }
}

/// Limits that name a depth and nothing else.
pub open spec fn to_depth(depth: u32) -> Limits {
    Limits { depth: Some(depth), ..Limits::unlimited() }
}

/// The nodes that a game takes at a depth, with an empty table of so many slots.
pub open spec fn nodes_of(record: Record, depth: u32, slots: nat) -> u64 {
    if legal_moves(record.now().diagram).len() == 0 {
        0
    } else {
        played_out(
            Leash { limit: None, cut: None },
            None,
            record,
            to_depth(depth),
            30_000_000,
            blank_memory(slots),
        ).work.nodes
    }
}

/// Whether a row tells what a position took.
pub open spec fn is_row(row: Row, i: int, depth: u32, slots: nat) -> bool {
    &&& row.args == POSITIONS@[i]
    &&& described(row.args@) matches Ok(record) && row.nodes == nodes_of(record, depth, slots)
}

/// Whether the rows tell what the positions took, with a table of so many slots:
/// as many as the size buys, or the fewer that are had where the memory for them
/// is refused.
pub open spec fn are_rows(rows: Seq<Row>, depth: u32, slots: nat) -> bool {
    &&& rows.len() == 7
    &&& is_power_floor(wanted_entries(BENCH_HASH_MB as int), slots as int) || slots
        == FALLBACK_ENTRIES
    &&& forall|i: int| 0 <= i < 7 ==> #[trigger] is_row(rows[i], i, depth, slots)
}

/// Why a position is none, if it is.
pub open spec fn refusal(i: int) -> Option<Seq<char>> {
    match described(POSITIONS@[i]@) {
        Ok(_) => None,
        Err(fault) => Some("`"@ + POSITIONS@[i]@ + "`: "@ + fault_text(fault)),
    }
}

/// Whether `i` is the first of the positions that is none, and `text` says why.
pub open spec fn is_first_refusal(i: int, text: Seq<char>) -> bool {
    &&& 0 <= i < 7
    &&& refusal(i) == Some(text)
    &&& forall|k: int| 0 <= k < i ==> #[trigger] refusal(k) is None
}

/// Searches each position to `depth`, each with an empty table. An error tells
/// of the first position that is none.
pub fn measure(depth: u32) -> (r: Result<Vec<Row>, String>)
    ensures
        r is Ok ==> exists|slots: nat| #[trigger] are_rows(r->Ok_0@, depth, slots),
        r is Err ==> exists|i: int| #[trigger] is_first_refusal(i, r->Err_0@),
{
    let clock = RealClock::new();
    let mut searcher = NegamaxSearcher::with_hash_mb(BENCH_HASH_MB);
    let ghost slots = searcher.work().memory.slots.len();
    let mut rows: Vec<Row> = Vec::new();
    let mut i: usize = 0;
    while i < 7
        invariant
            i <= 7,
            rows@.len() == i,
            searcher.well_formed(),
            searcher.margin_ns() == 30_000_000,
            searcher.work().memory.slots.len() == slots,
            is_power_floor(wanted_entries(BENCH_HASH_MB as int), slots as int) || slots
                == FALLBACK_ENTRIES,
            forall|k: int| 0 <= k < i ==> #[trigger] is_row(rows@[k], k, depth, slots),
        decreases 7 - i,
    {
        let args = POSITIONS[i];
        let game = match Game::from_usi_position(args) {
            Ok(game) => game,
            Err(error) => {
                let mut text = "`".to_owned();
                text.append(args);
                text.append("`: ");
                text.append(error.describe().as_str());
                assert forall|k: int| 0 <= k < i implies #[trigger] refusal(k) is None by {
                    assert(is_row(rows@[k], k, depth, slots));
                }
                let refused: Result<Vec<Row>, String> = Err(text);
                assert(is_first_refusal(i as int, refused->Err_0@));
                return refused;
            },
        };
        searcher.new_game();
        let ghost memory = searcher.work().memory;
        let ghost record = game@;
        assert(memory =~= blank_memory(slots));
        let mut limits = Limits::default();
        limits.depth = Some(depth);
        let job = SearchJob { id: i as u64, game, limits, signals: SearchSignals::new() };
        let started = clock.now();
        let best = searcher.search(&job, &mut SilentSink);
        let elapsed = clock.now().saturating_sub(started);
        let nodes: u64 = searcher.nodes();
        rows.push(Row { args, nodes, elapsed });
        proof {
            assert(job.limits == to_depth(depth));
            assert(!is_timed(job.limits, record.now().diagram.side, 30_000_000));
            assert(is_row(rows@[i as int], i as int, depth, slots));
        }
        i += 1;
    }
    assert(are_rows(rows@, depth, slots));
    let measured: Result<Vec<Row>, String> = Ok(rows);
    assert(are_rows(measured->Ok_0@, depth, slots));
    measured
}

/// Two runs at one depth, with tables of the same size, tell the same of the same
/// positions: one row for each, in order, with the same count.
pub proof fn law_the_counts_are_determined(a: Seq<Row>, b: Seq<Row>, depth: u32, slots: nat)
    requires
        are_rows(a, depth, slots),
        are_rows(b, depth, slots),
    ensures
        a.len() == b.len() == POSITIONS@.len(),
        forall|i: int|
            0 <= i < a.len() ==> {
                &&& (#[trigger] a[i]).args == POSITIONS@[i]
                &&& b[i].args == POSITIONS@[i]
                &&& a[i].nodes == b[i].nodes
            },
{
    assert forall|i: int| 0 <= i < a.len() implies {
        &&& (#[trigger] a[i]).args == POSITIONS@[i]
        &&& b[i].args == POSITIONS@[i]
        &&& a[i].nodes == b[i].nodes
    } by {
        assert(is_row(a[i], i, depth, slots));
        assert(is_row(b[i], i, depth, slots));
    }
}

/// The nodes that the first `n` rows took together.
pub open spec fn nodes_in(rows: Seq<Row>, n: int) -> int
    decreases n,
{
    if n <= 0 {
        0
    } else {
        nodes_in(rows, n - 1) + rows[n - 1].nodes
    }
}

/// The time that the first `n` rows took together, as far as it can be held.
pub open spec fn time_in(rows: Seq<Row>, n: int) -> int
    decreases n,
{
    if n <= 0 {
        0
    } else {
        sum_of(time_in(rows, n - 1), rows[n - 1].elapsed.ns())
    }
}

/// A number with blanks in front of it, up to a width.
pub open spec fn padded(n: nat, width: nat) -> Seq<char> {
    let number = digits(n);
    if number.len() >= width {
        number
    } else {
        Seq::new((width - number.len()) as nat, |i: int| ' ') + number
    }
}

/// Whether a row agrees with its frozen count, where it is held against one. A
/// row that has none does not.
pub open spec fn agrees(depth: u32, i: int, nodes: u64) -> bool {
    depth != BENCH_DEPTH || (i < 7 && nodes == EXPECTED@[i])
}

/// What is said of a row: whether it agrees with its frozen count.
pub open spec fn verdict_text(depth: u32, i: int, nodes: u64) -> Seq<char> {
    if depth != BENCH_DEPTH {
        Seq::empty()
    } else if i >= 7 {
        "MISSING BASELINE"@
    } else if nodes == EXPECTED@[i] {
        "ok"@
    } else {
        "MISMATCH, expected "@ + digits(EXPECTED@[i] as nat)
    }
}

/// The line of a row.
pub open spec fn row_text(depth: u32, i: int, row: Row) -> Seq<char> {
    padded((i + 1) as nat, 2) + "  "@ + padded(row.nodes as nat, 12) + " nodes  "@ + padded(
        (row.elapsed.ns() / 1_000_000) as nat,
        7,
    ) + " ms  "@ + row.args@ + "  "@ + verdict_text(depth, i, row.nodes)
}

/// The lines in front of the rows.
pub open spec fn head_lines(depth: u32, n: nat) -> Seq<Seq<char>> {
    let title = "rinsai bench — depth "@ + digits(depth as nat) + ", hash 16 MiB, "@ + digits(n)
        + " positions"@;
    if depth == BENCH_DEPTH {
        seq![title, Seq::empty()]
    } else {
        seq![
            title,
            "(no frozen counts at this depth; the baseline is depth 4)"@,
            Seq::empty(),
        ]
    }
}

/// The lines of the first `n` rows.
pub open spec fn row_lines(depth: u32, rows: Seq<Row>, n: int) -> Seq<Seq<char>>
    decreases n,
{
    if n <= 0 {
        Seq::empty()
    } else {
        row_lines(depth, rows, n - 1).push(row_text(depth, n - 1, rows[n - 1]))
    }
}

/// Whether everything agrees with what was frozen: each row, and how many there
/// are.
pub open spec fn all_agree(depth: u32, rows: Seq<Row>) -> bool {
    &&& forall|i: int| 0 <= i < rows.len() ==> agrees(depth, i, (#[trigger] rows[i]).nodes)
    &&& depth == BENCH_DEPTH ==> rows.len() == 7
}

/// The lines behind the rows.
pub open spec fn tail_lines(depth: u32, rows: Seq<Row>) -> Seq<Seq<char>> {
    let nodes = nodes_in(rows, rows.len() as int);
    let ns = time_in(rows, rows.len() as int);
    let total = "total "@ + digits(nodes as nat) + " nodes in "@ + digits((ns / 1_000_000) as nat)
        + " ms ("@ + digits(rate(nodes as u64, ns) as nat) + " nps)"@;
    if depth != BENCH_DEPTH {
        seq![Seq::empty(), total]
    } else if all_agree(depth, rows) {
        seq![Seq::empty(), total, "counts match"@]
    } else {
        seq![Seq::empty(), total, "COUNTS MOVED"@]
    }
}

fn push_padded(text: &mut String, n: u128, width: usize)
    ensures
        final(text)@ == old(text)@ + padded(n as nat, width as nat),
{
    let mut number = String::new();
    push_number(&mut number, n);
    assert(number@ =~= digits(n as nat));
    let len: usize = number.as_str().unicode_len();
    let ghost before = text@;
    let blanks: usize = if len >= width {
        0
    } else {
        width - len
    };
    let mut i: usize = 0;
    assert(before + Seq::new(0, |k: int| ' ') =~= before);
    while i < blanks
        invariant
            i <= blanks,
            text@ == before + Seq::new(i as nat, |k: int| ' '),
        decreases blanks - i,
    {
        text.push(' ');
        i += 1;
        assert(text@ =~= before + Seq::new(i as nat, |k: int| ' '));
    }
    text.append(number.as_str());
    assert(text@ =~= before + padded(n as nat, width as nat));
}

fn row_line(depth: u32, i: usize, row: &Row) -> (r: String)
    requires
        i < usize::MAX,
    ensures
        r@ == row_text(depth, i as int, *row),
{
    let mut text = String::new();
    push_padded(&mut text, i as u128 + 1, 2);
    text.append("  ");
    push_padded(&mut text, row.nodes as u128, 12);
    text.append(" nodes  ");
    push_padded(&mut text, row.elapsed.as_millis(), 7);
    text.append(" ms  ");
    text.append(row.args);
    text.append("  ");
    let ghost head = text@;
    if depth == BENCH_DEPTH {
        if i >= 7 {
            text.append("MISSING BASELINE");
        } else if row.nodes == EXPECTED[i] {
            text.append("ok");
        } else {
            text.append("MISMATCH, expected ");
            push_number(&mut text, EXPECTED[i] as u128);
        }
    }
    assert(text@ =~= head + verdict_text(depth, i as int, row.nodes));
    assert(text@ =~= row_text(depth, i as int, *row));
    text
}

/// The report on the rows of a run at `depth`, line by line, and whether
/// everything agrees with what was frozen; at another depth nothing was.
pub fn report(depth: u32, rows: &Vec<Row>) -> (r: (Vec<String>, bool))
    requires
        nodes_in(rows@, rows@.len() as int) <= u64::MAX,
    ensures
        texts(r.0@) == head_lines(depth, rows@.len()) + row_lines(
            depth,
            rows@,
            rows@.len() as int,
        ) + tail_lines(depth, rows@),
        r.1 == all_agree(depth, rows@),
{
    let verifying = depth == BENCH_DEPTH;
    let mut lines: Vec<String> = Vec::new();
    let mut title = "rinsai bench — depth ".to_owned();
    push_number(&mut title, depth as u128);
    title.append(", hash 16 MiB, ");
    push_number(&mut title, rows.len() as u128);
    title.append(" positions");
    lines.push(title);
    if !verifying {
        lines.push("(no frozen counts at this depth; the baseline is depth 4)".to_owned());
    }
    lines.push(String::new());
    let ghost head = head_lines(depth, rows@.len());
    assert(texts(lines@) =~= head + row_lines(depth, rows@, 0));
    let mut ok = true;
    let mut nodes: u64 = 0;
    let mut elapsed = Duration::zero();
    let mut i: usize = 0;
    while i < rows.len()
        invariant
            i <= rows@.len(),
            verifying == (depth == BENCH_DEPTH),
            nodes_in(rows@, rows@.len() as int) <= u64::MAX,
            nodes == nodes_in(rows@, i as int),
            elapsed.ns() == time_in(rows@, i as int),
            texts(lines@) == head + row_lines(depth, rows@, i as int),
            ok == forall|k: int| 0 <= k < i ==> agrees(depth, k, (#[trigger] rows@[k]).nodes),
        decreases rows@.len() - i,
    {
        let row = rows[i];
        let line = row_line(depth, i, &row);
        let ghost text = line@;
        let ghost told = texts(lines@);
        lines.push(line);
        assert(texts(lines@) =~= told.push(text));
        assert(texts(lines@) =~= head + row_lines(depth, rows@, i as int + 1));
        if verifying && (i >= 7 || row.nodes != EXPECTED[i]) {
            ok = false;
        }
        proof {
            lemma_nodes_grow(rows@, i as int + 1, rows@.len() as int);
        }
        nodes = nodes + row.nodes;
        elapsed = elapsed.saturating_add(row.elapsed);
        i += 1;
    }
    if verifying && rows.len() != 7 {
        ok = false;
    }
    assert(ok == all_agree(depth, rows@));
    let ghost body = head + row_lines(depth, rows@, rows@.len() as int);
    let mut total = "total ".to_owned();
    push_number(&mut total, nodes as u128);
    total.append(" nodes in ");
    push_number(&mut total, elapsed.as_millis());
    total.append(" ms (");
    push_number(&mut total, nps(nodes, elapsed));
    total.append(" nps)");
    lines.push(String::new());
    lines.push(total);
    if verifying {
        lines.push(
            if ok {
                "counts match".to_owned()
            } else {
                "COUNTS MOVED".to_owned()
            },
        );
    }
    assert(texts(lines@) =~= body + tail_lines(depth, rows@));
    (lines, ok)
}

proof fn lemma_nodes_grow(rows: Seq<Row>, i: int, n: int)
    requires
        0 <= i <= n,
    ensures
        0 <= nodes_in(rows, i) <= nodes_in(rows, n),
    decreases n,
{
    if i < n {
        lemma_nodes_grow(rows, i, n - 1);
    } else if i > 0 {
        lemma_nodes_grow(rows, i - 1, i - 1);
    }
}

/// A run agrees with what was frozen if and only if it was at the depth of the
/// freezing and took exactly the frozen nodes, position by position and no
/// position more or less; at any other depth there is nothing to disagree with.
pub proof fn law_a_run_agrees_only_with_the_frozen_counts(depth: u32, rows: Seq<Row>)
    ensures
        depth != 4 ==> all_agree(depth, rows),
        depth == 4 ==> (all_agree(depth, rows) <==> rows.len() == EXPECTED@.len() && forall|i: int|
            0 <= i < rows.len() ==> (#[trigger] rows[i]).nodes == EXPECTED@[i]),
{
    if depth == 4 {
        assert(EXPECTED@.len() == 7);
        if all_agree(depth, rows) {
            assert forall|i: int| 0 <= i < rows.len() implies (#[trigger] rows[i]).nodes
                == EXPECTED@[i] by {
                assert(agrees(depth, i, rows[i].nodes));
            }
        }
    }
}

/// The report ends with the verdict at the depth of the freezing, and with the
/// total at any other; and the total is what the rows add up to.
pub proof fn law_the_report_ends_with_the_verdict(depth: u32, rows: Seq<Row>, row: Row)
    ensures
        depth == 4 && all_agree(depth, rows) ==> tail_lines(depth, rows).last() == "counts match"@,
        depth == 4 && !all_agree(depth, rows) ==> tail_lines(depth, rows).last()
            == "COUNTS MOVED"@,
        tail_lines(depth, rows).len() == if depth == 4 {
            3int
        } else {
            2
        },
        nodes_in(Seq::empty(), 0) == 0,
        nodes_in(rows.push(row), rows.len() as int + 1) == nodes_in(rows, rows.len() as int)
            + row.nodes,
        row_lines(depth, rows, rows.len() as int).len() == rows.len(),
{
    lemma_nodes_before(rows, rows.push(row), rows.len() as int);
    lemma_row_lines(depth, rows, rows.len() as int);
}

proof fn lemma_nodes_before(a: Seq<Row>, b: Seq<Row>, n: int)
    requires
        0 <= n <= a.len(),
        n <= b.len(),
        forall|k: int| 0 <= k < n ==> #[trigger] a[k] == b[k],
    ensures
        nodes_in(a, n) == nodes_in(b, n),
    decreases n,
{
    if n > 0 {
        assert(a[n - 1] == b[n - 1]);
        lemma_nodes_before(a, b, n - 1);
    }
}

proof fn lemma_row_lines(depth: u32, rows: Seq<Row>, n: int)
    requires
        0 <= n <= rows.len(),
    ensures
        row_lines(depth, rows, n).len() == n,
    decreases n,
{
    if n > 0 {
        lemma_row_lines(depth, rows, n - 1);
    }
}

} // verus!
