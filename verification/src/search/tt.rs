//! The transposition table: what earlier visits to a position proved of it.

use vstd::prelude::*;

use crate::search::score::{Depth, Score, MAX_PLY};
use crate::shogi::Move;
use crate::text::{digits, push_number};

verus! {

/// The size of a table that nobody sized, in MiB.
pub const DEFAULT_HASH_MB: usize = 256;

/// How many slots fit in one MiB.
pub const ENTRIES_PER_MB: usize = 65_536;

/// The slots of the table that is made when the one asked for cannot be had.
pub const FALLBACK_ENTRIES: usize = 65_536;

/// How much a new search advances the generation by, clear of the bound.
pub const GENERATION_STEP: u8 = 4;

/// What a stored score says of the position's value.
#[derive(Clone, Copy, Debug, PartialEq, Eq, Structural)]
pub enum Bound {
    /// The value is at most the score.
    Upper,
    /// The value is at least the score.
    Lower,
    /// The score is the value.
    Exact,
}

impl Bound {
    pub open spec fn spec_code(self) -> int {
        match self {
            Bound::Upper => 1,
            Bound::Lower => 2,
            Bound::Exact => 3,
        }
    }

    /// The bound that a packed byte carries in its lowest two bits.
    pub open spec fn unpacked(age_bound: u8) -> Option<Bound> {
        if age_bound % 4 == 1 {
            Some(Bound::Upper)
        } else if age_bound % 4 == 2 {
            Some(Bound::Lower)
        } else if age_bound % 4 == 3 {
            Some(Bound::Exact)
        } else {
            None
        }
    }

    pub fn code(self) -> (r: u8)
        ensures
            r == self.spec_code(),
    {
        match self {
            Bound::Upper => 1,
            Bound::Lower => 2,
            Bound::Exact => 3,
        }
    }

    /// The bound that a packed byte carries, or `None` where it carries none.
    pub fn from_code(age_bound: u8) -> (r: Option<Bound>)
        ensures
            r == Bound::unpacked(age_bound),
    {
        let code: u8 = age_bound % 4;
        if code == 1 {
            Some(Bound::Upper)
        } else if code == 2 {
            Some(Bound::Lower)
        } else if code == 3 {
            Some(Bound::Exact)
        } else {
            None
        }
    }
}

/// A bound packed with a generation comes out again, and so does the
/// generation.
pub proof fn law_a_bound_round_trips(generation: u8, bound: Bound)
    requires
        generation % 4 == 0,
    ensures
        generation + bound.spec_code() < 256,
        Bound::unpacked((generation + bound.spec_code()) as u8) == Some(bound),
        made_in((generation + bound.spec_code()) as u8) == generation,
{
}

/// The generation that a packed byte carries above its lowest two bits.
pub open spec fn made_in(age_bound: u8) -> int {
    age_bound - age_bound % 4
}

/// One slot.
#[derive(Clone, Copy, Debug, PartialEq, Eq, Structural)]
pub struct Entry {
    pub key: u64,
    pub score: i16,
    pub mv: Option<Move>,
    pub depth: i8,
    /// The generation with the bound's code added. Zero means empty.
    pub age_bound: u8,
}

impl Entry {
    pub open spec fn vacant() -> Entry {
        Entry { key: 0, score: 0, mv: None, depth: 0, age_bound: 0 }
    }

    /// An empty slot.
    pub fn empty() -> (r: Entry)
        ensures
            r == Entry::vacant(),
    {
        Entry { key: 0, score: 0, mv: None, depth: 0, age_bound: 0 }
    }
}

/// What a probe found.
#[derive(Clone, Copy, Debug, PartialEq, Eq, Structural)]
pub struct Hit {
    pub score: Score,
    pub depth: Depth,
    pub bound: Bound,
    /// Not known to be legal in the position that was probed.
    pub mv: Option<Move>,
}

/// A mate score as plies from the node that stores it, any other score itself.
pub open spec fn stored_score(score: int, ply: int) -> int {
    if score >= 31_872 {
        score + ply
    } else if score <= -31_872 {
        score - ply
    } else {
        score
    }
}

/// A stored score as plies from the root, for a node `ply` plies from it.
pub open spec fn loaded_score(stored: int, ply: int) -> int {
    if stored >= 31_872 {
        stored - ply
    } else if stored <= -31_872 {
        stored + ply
    } else {
        stored
    }
}

/// A mate score as plies from the node that stores it, any other score itself.
pub fn to_table(score: Score, ply: usize) -> (r: i64)
    requires
        ply <= MAX_PLY,
    ensures
        r == stored_score(score.0 as int, ply as int),
{
    let raw: i64 = score.0 as i64;
    if !score.is_mate() {
        return raw;
    }
    let ply: i64 = ply as i64;
    if raw > 0 {
        raw + ply
    } else {
        raw - ply
    }
}

/// The inverse of [`to_table`], for a node `ply` plies from the root.
pub fn from_table(stored: i16, ply: usize) -> (r: Score)
    requires
        ply <= MAX_PLY,
    ensures
        r.0 == loaded_score(stored as int, ply as int),
{
    let score = Score(stored as i32);
    if !score.is_mate() {
        return score;
    }
    let ply: i32 = ply as i32;
    if stored > 0 {
        score - ply
    } else {
        score + ply
    }
}

/// A mate that is `distance` plies away from a node reads as the same mate from
/// a node at any other ply, each counting from the root.
pub proof fn law_a_mate_survives_another_ply(stored_at: int, read_at: int, distance: int)
    requires
        0 <= stored_at,
        0 <= read_at,
        0 <= distance,
        stored_at + distance <= MAX_PLY,
        read_at + distance <= MAX_PLY,
    ensures
        loaded_score(stored_score(32_000 - (stored_at + distance), stored_at), read_at) == 32_000 - (
        read_at + distance),
        loaded_score(stored_score(-32_000 + (stored_at + distance), stored_at), read_at) == -32_000
            + (read_at + distance),
{
}

/// A score that means no mate is stored as it is.
pub proof fn law_an_ordinary_score_is_unchanged(score: int, stored_at: int, read_at: int)
    requires
        -31_872 < score < 31_872,
    ensures
        loaded_score(stored_score(score, stored_at), read_at) == score,
{
}

/// Every score that a search can come up with, and every depth, fits a slot.
pub proof fn law_every_reachable_score_and_depth_fits(score: int, ply: int, depth: int)
    requires
        -32_001 <= score <= 32_001,
        0 <= ply <= MAX_PLY,
        0 <= depth < MAX_PLY,
    ensures
        i16::MIN <= stored_score(score, ply) <= i16::MAX,
        i8::MIN <= depth <= i8::MAX,
{
}

/// What a table holds: its slots, and the generation of the running search.
#[verifier::ext_equal]
pub struct Memory {
    pub slots: Seq<Entry>,
    pub generation: u8,
}

impl Memory {
    pub open spec fn well_formed(self) -> bool {
        &&& self.slots.len() >= 1
        &&& self.generation % 4 == 0
    }

    /// Whether no slot holds a score past the mates.
    pub open spec fn sound(self) -> bool {
        forall|i: int|
            0 <= i < self.slots.len() ==> -32_000 <= (#[trigger] self.slots[i]).score <= 32_000
    }

    /// The slot of a key.
    pub open spec fn place(self, key: u64) -> int {
        (key as int) % (self.slots.len() as int)
    }

    /// What a visit at `ply` finds of the position with `key`.
    pub open spec fn found(self, key: u64, ply: int) -> Option<Hit> {
        let entry = self.slots[self.place(key)];
        match Bound::unpacked(entry.age_bound) {
            Some(bound) if entry.key == key => Some(
                Hit {
                    score: Score(loaded_score(entry.score as int, ply) as i32),
                    depth: entry.depth as i32,
                    bound,
                    mv: entry.mv,
                },
            ),
            _ => None,
        }
    }

    /// Whether a result of `depth` may take the slot: the slot is empty, or left
    /// by an earlier search, or holds nothing deeper.
    pub open spec fn gives_way(self, key: u64, depth: int) -> bool {
        let entry = self.slots[self.place(key)];
        ||| Bound::unpacked(entry.age_bound) is None
        ||| made_in(entry.age_bound) != self.generation
        ||| depth >= entry.depth
    }

    /// The table after a visit at `ply` stored what it proved. A result without
    /// a move keeps the move that is known of the same position.
    pub open spec fn stored(
        self,
        key: u64,
        ply: int,
        depth: int,
        bound: Bound,
        score: int,
        mv: Option<Move>,
    ) -> Memory {
        let entry = self.slots[self.place(key)];
        let raw = stored_score(score, ply);
        if i16::MIN <= raw <= i16::MAX && i8::MIN <= depth <= i8::MAX && self.gives_way(key, depth) {
            Memory {
                slots: self.slots.update(
                    self.place(key),
                    Entry {
                        key,
                        score: raw as i16,
                        mv: if mv is None && entry.key == key {
                            entry.mv
                        } else {
                            mv
                        },
                        depth: depth as i8,
                        age_bound: (self.generation + bound.spec_code()) as u8,
                    },
                ),
                ..self
            }
        } else {
            self
        }
    }

    /// The table at the start of the next search.
    pub open spec fn aged(self) -> Memory {
        Memory {
            generation: if self.generation >= 252 {
                (self.generation - 252) as u8
            } else {
                (self.generation + 4) as u8
            },
            ..self
        }
    }

    /// Whether every slot is empty and no search has run.
    pub open spec fn blank(self) -> bool {
        &&& self.generation == 0
        &&& forall|i: int| 0 <= i < self.slots.len() ==> #[trigger] self.slots[i] == Entry::vacant()
    }

    /// Whether the running search filled the slot.
    pub open spec fn is_fresh(self, entry: Entry) -> bool {
        Bound::unpacked(entry.age_bound) is Some && made_in(entry.age_bound) == self.generation
    }

    /// How many of the first `n` slots the running search filled.
    pub open spec fn fresh(self, n: int) -> nat
        decreases n,
    {
        if n <= 0 {
            0
        } else {
            self.fresh(n - 1) + if self.is_fresh(self.slots[n - 1]) {
                1nat
            } else {
                0nat
            }
        }
    }

    /// How many slots are looked at to tell how full the table is.
    pub open spec fn sample(self) -> int {
        if self.slots.len() < 1000 {
            self.slots.len() as int
        } else {
            1000
        }
    }
}

/// What was stored comes back to whoever probes for the position, a mate
/// counted from the ply of the probe; unless the slot held a deeper result of
/// the running search, which then stays.
pub proof fn law_a_stored_entry_comes_back(
    memory: Memory,
    key: u64,
    ply: int,
    depth: int,
    bound: Bound,
    score: int,
    mv: Option<Move>,
    read_at: int,
)
    requires
        memory.well_formed(),
        0 <= ply <= MAX_PLY,
        0 <= read_at <= MAX_PLY,
        -32_001 <= score <= 32_001,
        0 <= depth < MAX_PLY,
    ensures
        memory.gives_way(key, depth) ==> {
            let hit = memory.stored(key, ply, depth, bound, score, mv).found(key, read_at);
            &&& hit is Some
            &&& hit->0.score.0 == loaded_score(stored_score(score, ply), read_at)
            &&& hit->0.depth == depth
            &&& hit->0.bound == bound
            &&& mv is Some ==> hit->0.mv == mv
            &&& mv is None && memory.found(key, read_at) is Some ==> hit->0.mv == memory.found(
                key,
                read_at,
            )->0.mv
        },
        !memory.gives_way(key, depth) ==> memory.stored(key, ply, depth, bound, score, mv)
            == memory,
{
    law_a_bound_round_trips(memory.generation, bound);
    vstd::arithmetic::div_mod::lemma_mod_bound(key as int, memory.slots.len() as int);
}

/// No probe of a sound table comes up with a score past the mates of its ply, and
/// storing one that is not past them keeps the table sound.
pub proof fn law_a_sound_table_stays_within_the_mates(
    memory: Memory,
    key: u64,
    ply: int,
    depth: int,
    bound: Bound,
    score: int,
    mv: Option<Move>,
)
    requires
        memory.well_formed(),
        memory.sound(),
        0 <= ply <= MAX_PLY,
    ensures
        memory.found(key, ply) matches Some(hit) ==> -32_000 + ply <= hit.score.0 <= 32_000 - ply,
        -32_000 + ply <= score <= 32_000 - ply ==> memory.stored(
            key,
            ply,
            depth,
            bound,
            score,
            mv,
        ).sound(),
{
    vstd::arithmetic::div_mod::lemma_mod_bound(key as int, memory.slots.len() as int);
    assert(-32_000 <= memory.slots[memory.place(key)].score <= 32_000);
}

/// A table that was emptied answers no probe.
pub proof fn law_a_blank_table_answers_nothing(memory: Memory, key: u64, ply: int)
    requires
        memory.slots.len() >= 1,
        memory.blank(),
    ensures
        memory.found(key, ply) is None,
{
    vstd::arithmetic::div_mod::lemma_mod_bound(key as int, memory.slots.len() as int);
    assert(memory.slots[memory.place(key)] == Entry::vacant());
}

/// Ageing a table loses nothing that a probe would find, and makes every slot
/// of the search before it give way to any result.
pub proof fn law_a_new_search_keeps_the_answers(memory: Memory, key: u64, ply: int, depth: int)
    requires
        memory.well_formed(),
    ensures
        memory.aged().well_formed(),
        memory.aged().found(key, ply) == memory.found(key, ply),
        made_in(memory.slots[memory.place(key)].age_bound) == memory.generation
            ==> memory.aged().gives_way(key, depth),
{
}

/// The largest power of two that is not above `n`.
pub open spec fn is_power_floor(n: int, r: int) -> bool {
    &&& exists|k: nat| r == #[trigger] vstd::arithmetic::power2::pow2(k)
    &&& r <= n < 2 * r
}

/// The slots that `mb` MiB are worth, before rounding.
pub open spec fn wanted_entries(mb: int) -> int {
    let wanted = mb * ENTRIES_PER_MB;
    if wanted < 1 {
        1
    } else if wanted > usize::MAX {
        usize::MAX as int
    } else {
        wanted
    }
}

/// A size in MiB buys one number of slots.
pub proof fn law_a_size_buys_one_number_of_slots(mb: int, a: int, b: int)
    requires
        is_power_floor(wanted_entries(mb), a),
        is_power_floor(wanted_entries(mb), b),
    ensures
        a == b,
{
    let j = choose|k: nat| a == #[trigger] vstd::arithmetic::power2::pow2(k);
    let k = choose|k: nat| b == #[trigger] vstd::arithmetic::power2::pow2(k);
    if j < k {
        lemma_doubles(j, k);
    } else if k < j {
        lemma_doubles(k, j);
    }
}

/// A higher power of two is at least the double of a lower one.
proof fn lemma_doubles(j: nat, k: nat)
    requires
        j < k,
    ensures
        2 * vstd::arithmetic::power2::pow2(j) <= vstd::arithmetic::power2::pow2(k),
    decreases k,
{
    vstd::arithmetic::power2::lemma_pow2_unfold(k);
    if j + 1 < k {
        lemma_doubles(j, (k - 1) as nat);
    }
}

/// What a table reads as in a log.
pub open spec fn table_text(memory: Memory) -> Seq<char> {
    "Table { entries: "@ + digits(memory.slots.len()) + ", generation: "@ + digits(
        memory.generation as nat,
    ) + ", .. }"@
}

/// A transposition table.
pub struct Table {
    entries: Vec<Entry>,
    generation: u8,
}

impl View for Table {
    type V = Memory;

    closed spec fn view(&self) -> Memory {
        Memory { slots: self.entries@, generation: self.generation }
    }
}

impl Table {
    /// An empty table of `mb` MiB, rounded down to a power of two slots, or of
    /// one MiB where the memory for it cannot be had.
    pub fn new(mb: usize) -> (r: Table)
        ensures
            r@.well_formed(),
            r@.blank(),
            is_power_floor(wanted_entries(mb as int), r@.slots.len() as int) || r@.slots.len()
                == FALLBACK_ENTRIES,
    {
        let entries = Table::allocate(Table::entries_for_mb(mb));
        Table { entries, generation: 0 }
    }

    /// How many slots `mb` MiB buy, rounded down to a power of two.
    pub fn entries_for_mb(mb: usize) -> (r: usize)
        ensures
            is_power_floor(wanted_entries(mb as int), r as int),
            r >= 1,
    {
        let wanted: usize = match mb.checked_mul(ENTRIES_PER_MB) {
            Some(wanted) => {
                if wanted < 1 {
                    1
                } else {
                    wanted
                }
            },
            None => usize::MAX,
        };
        let mut slots: usize = 1;
        let ghost mut k: nat = 0;
        proof {
            vstd::arithmetic::power2::lemma2_to64();
        }
        while slots <= wanted / 2
            invariant
                1 <= slots <= wanted,
                slots == vstd::arithmetic::power2::pow2(k),
            decreases wanted - slots,
        {
            proof {
                vstd::arithmetic::power2::lemma_pow2_unfold(k + 1);
                k = k + 1;
            }
            slots = slots * 2;
        }
        slots
    }

    /// `len` empty slots, or one MiB of them if the memory is refused. Whether
    /// it is depends on the machine.
    pub fn allocate(len: usize) -> (r: Vec<Entry>)
        ensures
            r@.len() == len || r@.len() == FALLBACK_ENTRIES,
            forall|i: int| 0 <= i < r@.len() ==> #[trigger] r@[i] == Entry::vacant(),
    {
        let mut reserved: Vec<Entry> = Vec::new();
        let granted = reserved.try_reserve(len).is_ok();
        Table::filled(reserved, granted, len)
    }

    /// The slots of a new table, after `len` of them were asked for: as many as
    /// that where the memory was granted, and one MiB of them where it was
    /// refused. All are empty.
    pub fn filled(reserved: Vec<Entry>, granted: bool, len: usize) -> (r: Vec<Entry>)
        requires
            reserved@.len() == 0,
        ensures
            r@.len() == (if granted {
                len as int
            } else {
                FALLBACK_ENTRIES as int
            }),
            forall|i: int| 0 <= i < r@.len() ==> #[trigger] r@[i] == Entry::vacant(),
    {
        if granted {
            let mut entries = reserved;
            entries.resize(len, Entry::empty());
            entries
        } else {
            vec![Entry::empty(); FALLBACK_ENTRIES]
        }
    }

    /// The table in a few words: how many slots it has, and its generation.
    pub fn describe(&self) -> (r: String)
        ensures
            r@ == table_text(self@),
    {
        let mut text = "Table { entries: ".to_owned();
        push_number(&mut text, self.entries.len() as u128);
        text.append(", generation: ");
        push_number(&mut text, self.generation as u128);
        text.append(", .. }");
        text
    }

    /// The size of the table that exists, in MiB.
    pub fn mib(&self) -> (r: usize)
        ensures
            r == self@.slots.len() / ENTRIES_PER_MB as nat,
    {
        self.entries.len() / ENTRIES_PER_MB
    }

    /// How many slots there are.
    pub fn len(&self) -> (r: usize)
        ensures
            r == self@.slots.len(),
    {
        self.entries.len()
    }

    /// An empty table of `mb` MiB in place of this one, whatever the size was. A
    /// table that has the size already keeps its slots.
    pub fn resize(&mut self, mb: usize)
        ensures
            final(self)@.well_formed(),
            final(self)@.blank(),
            is_power_floor(wanted_entries(mb as int), final(self)@.slots.len() as int)
                || final(self)@.slots.len() == FALLBACK_ENTRIES,
            is_power_floor(wanted_entries(mb as int), old(self)@.slots.len() as int)
                ==> final(self)@.slots.len() == old(self)@.slots.len(),
    {
        let len: usize = Table::entries_for_mb(mb);
        proof {
            if is_power_floor(wanted_entries(mb as int), self@.slots.len() as int) {
                law_a_size_buys_one_number_of_slots(
                    mb as int,
                    self@.slots.len() as int,
                    len as int,
                );
            }
        }
        if len == self.entries.len() {
            self.clear();
            return;
        }
        self.entries = Vec::new();
        self.entries = Table::allocate(len);
        self.generation = 0;
    }

    /// Empties every slot.
    pub fn clear(&mut self)
        ensures
            final(self)@.blank(),
            final(self)@.slots.len() == old(self)@.slots.len(),
    {
        let len: usize = self.entries.len();
        let mut i: usize = 0;
        while i < len
            invariant
                i <= len,
                len == self.entries@.len(),
                len == old(self)@.slots.len(),
                forall|j: int| 0 <= j < i ==> #[trigger] self.entries@[j] == Entry::vacant(),
            decreases len - i,
        {
            self.entries.set(i, Entry::empty());
            i += 1;
        }
        self.generation = 0;
    }

    /// Starts a new search: what earlier ones left still answers probes, and is
    /// the first to be replaced.
    pub fn new_search(&mut self)
        ensures
            final(self)@ == old(self)@.aged(),
    {
        self.generation = self.generation.wrapping_add(GENERATION_STEP);
    }

    /// What an earlier visit to the position with `key` proved, seen from a node
    /// `ply` plies from the root.
    pub fn probe(&self, key: u64, ply: usize) -> (r: Option<Hit>)
        requires
            self@.well_formed(),
            ply <= MAX_PLY,
        ensures
            r == self@.found(key, ply as int),
    {
        let place: usize = (key % (self.entries.len() as u64)) as usize;
        let entry = self.entries[place];
        if entry.key != key {
            return None;
        }
        match Bound::from_code(entry.age_bound) {
            Some(bound) => Some(
                Hit {
                    score: from_table(entry.score, ply),
                    depth: entry.depth as i32,
                    bound,
                    mv: entry.mv,
                },
            ),
            None => None,
        }
    }

    /// Stores what a visit to the position with `key` proved.
    pub fn store(
        &mut self,
        key: u64,
        ply: usize,
        depth: Depth,
        bound: Bound,
        score: Score,
        mv: Option<Move>,
    )
        requires
            old(self)@.well_formed(),
            ply <= MAX_PLY,
        ensures
            final(self)@ == old(self)@.stored(
                key,
                ply as int,
                depth as int,
                bound,
                score.0 as int,
                mv,
            ),
            final(self)@.well_formed(),
    {
        let raw: i64 = to_table(score, ply);
        if raw < -32_768 || raw > 32_767 || depth < -128 || depth > 127 {
            return;
        }
        let place: usize = (key % (self.entries.len() as u64)) as usize;
        let slot = self.entries[place];
        let occupied = Bound::from_code(slot.age_bound).is_some();
        let stale = slot.age_bound - slot.age_bound % 4 != self.generation;
        if occupied && !stale && depth < slot.depth as i32 {
            return;
        }
        let mv = match mv {
            Some(mv) => Some(mv),
            None => {
                if slot.key == key {
                    slot.mv
                } else {
                    None
                }
            },
        };
        self.entries.set(
            place,
            Entry {
                key,
                score: raw as i16,
                mv,
                depth: depth as i8,
                age_bound: self.generation + bound.code(),
            },
        );
    }

    /// How full the table is with what the running search stored, in permille,
    /// judged by its first thousand slots.
    pub fn hashfull(&self) -> (r: u32)
        requires
            self@.well_formed(),
        ensures
            r == (self@.fresh(self@.sample()) * 1000) as int / self@.sample(),
            r <= 1000,
    {
        let sample: usize = if self.entries.len() < 1000 {
            self.entries.len()
        } else {
            1000
        };
        let mut used: usize = 0;
        let mut i: usize = 0;
        while i < sample
            invariant
                i <= sample <= self.entries@.len(),
                sample <= 1000,
                used == self@.fresh(i as int),
                used <= i,
            decreases sample - i,
        {
            let entry = self.entries[i];
            if Bound::from_code(entry.age_bound).is_some() && entry.age_bound - entry.age_bound % 4
                == self.generation {
                used += 1;
            }
            i += 1;
        }
        assert(used * 1000 / sample as int <= 1000) by (nonlinear_arith)
            requires
                0 <= used <= sample,
                sample >= 1,
        ;
        (used * 1000 / sample) as u32
    }
}

/// A probe finds what the slot of the key holds, if the slot was filled for that
/// very key: the depth, the move and the bound as they are, and the score, where
/// a mate is counted from the root.
pub proof fn law_a_probe_finds_what_the_slot_holds(memory: Memory, key: u64, ply: int)
    requires
        memory.slots.len() >= 1,
        0 <= ply <= MAX_PLY,
    ensures
        ({
            let slot = memory.slots[(key as int) % (memory.slots.len() as int)];
            let hit = memory.found(key, ply);
            &&& hit is Some <==> slot.key == key && slot.age_bound % 4 != 0
            &&& hit is Some ==> {
                &&& hit->0.depth == slot.depth
                &&& hit->0.mv == slot.mv
                &&& hit->0.bound == Bound::Upper <==> slot.age_bound % 4 == 1
                &&& hit->0.bound == Bound::Lower <==> slot.age_bound % 4 == 2
                &&& hit->0.bound == Bound::Exact <==> slot.age_bound % 4 == 3
                &&& -31_872 < slot.score < 31_872 ==> hit->0.score.0 == slot.score
                &&& slot.score >= 31_872 ==> hit->0.score.0 == slot.score - ply
                &&& slot.score <= -31_872 ==> hit->0.score.0 == slot.score + ply
            }
        }),
{
}

/// A result takes the slot of its key unless the slot holds a deeper one of the
/// running search, and it touches no other slot. It keeps the move that is known
/// of the same position if it has none of its own.
pub proof fn law_a_result_takes_its_own_slot(
    memory: Memory,
    key: u64,
    ply: int,
    depth: int,
    bound: Bound,
    score: int,
    mv: Option<Move>,
)
    requires
        memory.well_formed(),
        0 <= ply <= MAX_PLY,
        -32_000 <= score <= 32_000,
        -128 <= depth <= 127,
    ensures
        ({
            let place = (key as int) % (memory.slots.len() as int);
            let slot = memory.slots[place];
            let after = memory.stored(key, ply, depth, bound, score, mv);
            &&& after.generation == memory.generation
            &&& after.slots.len() == memory.slots.len()
            &&& forall|i: int|
                0 <= i < memory.slots.len() && i != place ==> #[trigger] after.slots[i]
                    == memory.slots[i]
            &&& slot.age_bound % 4 != 0 && slot.age_bound - slot.age_bound % 4 == memory.generation
                && slot.depth > depth ==> after == memory
            &&& slot.age_bound % 4 == 0 || slot.age_bound - slot.age_bound % 4 != memory.generation
                || slot.depth <= depth ==> {
                &&& after.slots[place].key == key
                &&& after.slots[place].depth == depth
                &&& after.slots[place].age_bound - after.slots[place].age_bound % 4
                    == memory.generation
                &&& after.slots[place].age_bound % 4 == bound.spec_code()
                &&& mv is Some ==> after.slots[place].mv == mv
                &&& mv is None && slot.key == key ==> after.slots[place].mv == slot.mv
                &&& mv is None && slot.key != key ==> after.slots[place].mv is None
            }
        }),
{
    vstd::arithmetic::div_mod::lemma_mod_bound(key as int, memory.slots.len() as int);
}

/// A new search leaves every slot as it is, and has another generation than the
/// search before it: the next of sixty-four, which come round again.
pub proof fn law_a_new_search_has_a_generation_of_its_own(memory: Memory)
    requires
        memory.well_formed(),
    ensures
        memory.aged().slots == memory.slots,
        memory.aged().generation == (memory.generation + 4) % 256,
        memory.aged().generation != memory.generation,
{
}

/// How full the table is counts the slots that the running search filled, each
/// once: of the first thousand, or of all where there are fewer. A table that
/// holds nothing of this search is not full at all, and one that holds nothing
/// else is full in every one of a thousand parts.
pub proof fn law_fullness_counts_the_running_search(memory: Memory, n: int)
    requires
        memory.slots.len() >= 1,
        0 <= n <= memory.slots.len(),
    ensures
        memory.sample() == if memory.slots.len() <= 1000 {
            memory.slots.len() as int
        } else {
            1000
        },
        memory.fresh(n) <= n,
        n > 0 ==> memory.fresh(n) == memory.fresh(n - 1) + (if memory.slots[n - 1].age_bound % 4
            != 0 && memory.slots[n - 1].age_bound - memory.slots[n - 1].age_bound % 4
            == memory.generation {
            1int
        } else {
            0
        }),
        (forall|i: int| 0 <= i < n ==> #[trigger] memory.slots[i].age_bound % 4 == 0) ==> memory.fresh(
            n,
        ) == 0,
        (forall|i: int|
            0 <= i < n ==> #[trigger] memory.slots[i].age_bound % 4 != 0
                && memory.slots[i].age_bound - memory.slots[i].age_bound % 4 == memory.generation)
            ==> memory.fresh(n) == n,
    decreases n,
{
    if n > 0 {
        law_fullness_counts_the_running_search(memory, n - 1);
        assert(memory.slots[n - 1].age_bound % 4 == 0 || memory.slots[n - 1].age_bound % 4 != 0);
    }
}

/// The size that is asked for is bought as far as it can be: at least one slot,
/// at most what can be counted, and 65,536 slots to the MiB.
pub proof fn law_a_mebibyte_buys_65536_slots(mb: int)
    requires
        0 <= mb,
    ensures
        mb == 0 ==> wanted_entries(mb) == 1,
        mb >= 1 && mb * 65_536 <= usize::MAX ==> wanted_entries(mb) == mb * 65_536,
        mb * 65_536 > usize::MAX ==> wanted_entries(mb) == usize::MAX,
{
}

} // verus!
