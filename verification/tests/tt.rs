use rinsai::search::score::{Score, MAX_PLY};
use rinsai::search::tt::{
    to_table, Bound, Entry, Table, ENTRIES_PER_MB, FALLBACK_ENTRIES, GENERATION_STEP,
};
use rinsai::shogi::{Color, Move, Piece, PieceKind, Square};

fn table() -> Table {
    Table::new(1)
}

fn mv(from: (u8, u8), to: (u8, u8)) -> Move {
    Move::Normal {
        from: Square::new(from.0, from.1).expect("a square"),
        to: Square::new(to.0, to.1).expect("a square"),
        promote: false,
    }
}

#[test]
fn a_slot_is_sixteen_bytes_and_a_compact_move_is_two() {
    assert_eq!(std::mem::size_of::<Option<shogi_core::CompactMove>>(), 2);
    assert_eq!(std::mem::size_of::<Entry>(), 16);
    assert_eq!(ENTRIES_PER_MB, 65_536);
}

#[test]
fn a_zeroed_slot_is_empty() {
    assert_eq!(Bound::from_code(0), None);
    assert_eq!(Entry::empty().age_bound, 0);
    assert!(table().probe(0, 0).is_none());
    assert!(table().probe(12_345, 0).is_none());
}

#[test]
fn a_bound_round_trips_through_every_generation() {
    let mut generation: u8 = 0;
    for _ in 0..64 {
        for bound in [Bound::Upper, Bound::Lower, Bound::Exact] {
            let packed = generation | bound.code();
            assert_eq!(Bound::from_code(packed), Some(bound));
            assert_eq!(packed & !3, generation);
        }
        generation = generation.wrapping_add(GENERATION_STEP);
    }
    assert_eq!(generation, 0, "the generation did not cycle cleanly");
}

#[test]
fn a_stored_entry_comes_back() {
    let mut tt = table();
    let expected = mv((7, 7), (7, 6));
    tt.store(0xdead_beef, 0, 7, Bound::Exact, Score::cp(-42), Some(expected));

    let hit = tt.probe(0xdead_beef, 0).expect("the entry is there");
    assert_eq!(hit.score, Score::cp(-42));
    assert_eq!(hit.depth, 7);
    assert_eq!(hit.bound, Bound::Exact);
    assert_eq!(hit.mv, Some(expected));

    assert!(tt.probe(0xdead_bee0, 0).is_none(), "another key hit");
}

#[test]
fn a_stored_drop_keeps_its_piece_and_colour() {
    let mut tt = table();
    let expected = Move::Drop {
        piece: Piece::new(PieceKind::Silver, Color::White),
        to: Square::new(5, 2).expect("5b"),
    };
    tt.store(1, 0, 1, Bound::Lower, Score::zero(), Some(expected));
    assert_eq!(tt.probe(1, 0).and_then(|hit| hit.mv), Some(expected));
}

#[test]
fn a_mate_score_survives_being_read_at_another_ply() {
    let mut tt = table();
    for (stored_at, read_at) in [(0, 0), (3, 3), (5, 1), (1, 5), (100, 20), (20, 100)] {
        for distance in [0, 1, 7] {
            for mating in [true, false] {
                let (stored, expected) = if mating {
                    (
                        Score::mate_in(stored_at + distance),
                        Score::mate_in(read_at + distance),
                    )
                } else {
                    (
                        Score::mated_in(stored_at + distance),
                        Score::mated_in(read_at + distance),
                    )
                };
                tt.store(7, stored_at, 1, Bound::Exact, stored, None);
                let hit = tt.probe(7, read_at).expect("the entry is there");
                assert_eq!(
                    hit.score, expected,
                    "mate {distance} away, stored at {stored_at}, read at {read_at}"
                );
                assert!(hit.score.is_mate());
            }
        }
    }
}

#[test]
fn an_ordinary_score_is_stored_unchanged() {
    let mut tt = table();
    for cp in [0, 1, -1, 215, -2_500, 30_000, -30_000] {
        let score = Score::cp(cp);
        tt.store(7, 17, 1, Bound::Exact, score, None);
        assert_eq!(tt.probe(7, 42).expect("stored").score, score);
    }
}

#[test]
fn every_reachable_score_and_depth_fits() {
    for ply in [0, 1, MAX_PLY] {
        for score in [
            Score::mate_in(ply),
            Score::mated_in(ply),
            Score::cp(30_000),
            Score::cp(-30_000),
            Score::zero(),
        ] {
            assert!(
                i16::try_from(to_table(score, ply)).is_ok(),
                "{score:?} at ply {ply}"
            );
        }
    }
    assert!(i8::try_from(MAX_PLY as i32 - 1).is_ok());
}

#[test]
fn a_shallower_result_does_not_evict_a_deeper_one() {
    let mut tt = table();
    tt.new_search();
    tt.store(7, 0, 8, Bound::Exact, Score::cp(100), None);
    tt.store(7, 0, 2, Bound::Exact, Score::cp(-100), None);
    let hit = tt.probe(7, 0).expect("the deep entry is still there");
    assert_eq!(hit.depth, 8);
    assert_eq!(hit.score, Score::cp(100));
}

#[test]
fn a_new_search_may_replace_a_deeper_entry_from_the_last_one() {
    let mut tt = table();
    tt.new_search();
    tt.store(7, 0, 8, Bound::Exact, Score::cp(100), None);
    tt.new_search();
    tt.store(7, 0, 2, Bound::Exact, Score::cp(-100), None);
    assert_eq!(tt.probe(7, 0).expect("replaced").depth, 2);
}

#[test]
fn a_store_without_a_move_keeps_the_one_already_there() {
    let mut tt = table();
    let kept = mv((2, 7), (2, 6));
    tt.store(9, 0, 4, Bound::Exact, Score::zero(), Some(kept));
    tt.store(9, 0, 4, Bound::Upper, Score::cp(-30), None);

    let hit = tt.probe(9, 0).expect("the entry is there");
    assert_eq!(hit.bound, Bound::Upper);
    assert_eq!(hit.mv, Some(kept), "the move was thrown away");
}

#[test]
fn a_different_position_does_not_inherit_the_slots_move() {
    let mut tt = table();
    let len = tt.len() as u64;
    tt.store(3, 0, 4, Bound::Exact, Score::zero(), Some(mv((2, 7), (2, 6))));
    tt.store(3 + len, 0, 4, Bound::Upper, Score::zero(), None);
    assert_eq!(tt.probe(3 + len, 0).expect("stored").mv, None);
}

#[test]
fn clearing_empties_the_table() {
    let mut tt = table();
    tt.store(5, 0, 3, Bound::Exact, Score::zero(), None);
    assert!(tt.probe(5, 0).is_some());
    tt.clear();
    assert!(tt.probe(5, 0).is_none());
}

#[test]
fn resizing_empties_the_table() {
    for mb in [1, 2] {
        let mut tt = table();
        tt.store(5, 0, 3, Bound::Exact, Score::zero(), None);
        tt.resize(mb);
        assert!(tt.probe(5, 0).is_none(), "survived a resize to {mb} MiB");
        assert_eq!(tt.len(), Table::entries_for_mb(mb));
    }
}

#[test]
fn a_table_is_a_power_of_two_slots_no_larger_than_asked_for() {
    for (mb, expected) in [
        (1, 65_536),
        (2, 131_072),
        (3, 131_072),
        (4, 262_144),
        (256, 16_777_216),
        (65_536, 4_294_967_296),
    ] {
        let len = Table::entries_for_mb(mb);
        assert_eq!(len, expected, "{mb} MiB");
        assert!(len.is_power_of_two());
        assert!(len * std::mem::size_of::<Entry>() <= mb * (1 << 20));
    }
    assert_eq!(Table::entries_for_mb(0), 1);
}

#[test]
fn a_table_too_large_to_allocate_falls_back_instead_of_aborting() {
    let entries = Table::allocate(1 << 60);
    assert_eq!(entries.len(), FALLBACK_ENTRIES);
    assert_eq!(FALLBACK_ENTRIES, ENTRIES_PER_MB);
    assert!(entries.iter().all(|entry| *entry == Entry::empty()));
}

#[test]
fn mib_reports_the_table_that_exists() {
    for mb in [1, 2, 4] {
        assert_eq!(Table::new(mb).mib(), mb);
    }
    assert_eq!(Table::new(3).mib(), 2);
}

#[test]
fn hashfull_counts_this_searchs_entries() {
    let mut tt = table();
    tt.new_search();
    assert_eq!(tt.hashfull(), 0);
    for key in 0..250u64 {
        tt.store(key, 0, 1, Bound::Exact, Score::zero(), None);
    }
    assert_eq!(tt.hashfull(), 250);
    tt.new_search();
    assert_eq!(tt.hashfull(), 0);
    assert!(tt.probe(1, 0).is_some());
}

#[test]
fn a_result_that_does_not_fit_is_not_stored() {
    let mut tt = table();
    tt.store(4, 0, 128, Bound::Exact, Score::zero(), None);
    assert!(tt.probe(4, 0).is_none(), "a depth past what a slot holds");
    tt.store(4, 0, 1, Bound::Exact, Score::cp(40_000), None);
    assert!(tt.probe(4, 0).is_none(), "a score past what a slot holds");
}

#[test]
fn a_table_has_what_was_granted_and_falls_back_on_a_refusal() {
    assert_eq!(Table::filled(Vec::new(), true, 10).len(), 10);
    assert_eq!(Table::filled(Vec::new(), true, 0).len(), 0);
    let slots = Table::filled(Vec::new(), false, 10);
    assert_eq!(slots.len(), FALLBACK_ENTRIES);
    assert!(slots.iter().all(|slot| *slot == Entry::empty()));
    assert_eq!(Table::allocate(3).len(), 3);
}

#[test]
fn a_table_that_has_the_size_already_keeps_its_slots() {
    let mut table = Table::new(2);
    table.store(7, 0, 3, Bound::Exact, Score(5), None);
    table.resize(2);
    assert_eq!(table.len(), 2 * ENTRIES_PER_MB);
    assert!(table.probe(7, 0).is_none());
    table.resize(3);
    assert_eq!(table.len(), 2 * ENTRIES_PER_MB);
    table.resize(4);
    assert_eq!(table.len(), 4 * ENTRIES_PER_MB);
}

#[test]
fn a_table_is_described_without_its_slots() {
    let mut table = table();
    assert_eq!(table.describe(), "Table { entries: 65536, generation: 0, .. }");
    table.new_search();
    assert_eq!(table.describe(), "Table { entries: 65536, generation: 4, .. }");
}
