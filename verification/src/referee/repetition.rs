//! How often the positions of a game have occurred.

use vstd::prelude::*;

use crate::position::{PartialPosition, Placement};
use crate::text::same_text;

verus! {

/// What a position is to the repetition rule: its SFEN without the move number.
#[derive(Debug, PartialEq, Eq, Hash)]
pub struct PositionKey(String);

impl Clone for PositionKey {
    fn clone(&self) -> (r: PositionKey)
        ensures
            r@ == self@,
    {
        PositionKey(self.0.clone())
    }
}

impl View for PositionKey {
    type V = Seq<char>;

    closed spec fn view(&self) -> Seq<char> {
        self.0@
    }
}

/// The key of a position.
pub open spec fn key_of(p: Placement) -> Seq<char> {
    Placement { ply: 1, ..p }.sfen()
}

/// Whether two positions are the same to the repetition rule: board, side to
/// move and hands, but not the move number.
pub open spec fn same_position(a: Placement, b: Placement) -> bool {
    &&& a.diagram.squares == b.diagram.squares
    &&& a.diagram.side == b.diagram.side
    &&& a.diagram.black == b.diagram.black
    &&& a.diagram.white == b.diagram.white
}

/// The key of a position. Positions have one key if and only if they are the
/// same to the repetition rule.
pub fn position_key(position: &PartialPosition) -> (r: PositionKey)
    ensures
        r@ == key_of(position@),
        forall|other: Placement|
            other.diagram.squares.len() == 81 ==> (#[trigger] key_of(other) == r@ <==> same_position(
                other,
                position@,
            )),
{
    let key = PositionKey(position.with_ply(1).to_sfen_owned());
    assert forall|other: Placement| other.diagram.squares.len() == 81 implies (#[trigger] key_of(
        other,
    ) == key@ <==> same_position(other, position@)) by {
        let first = Placement { ply: 1, ..other };
        assert(first.sfen() == key_of(other));
    }
    key
}

impl PositionKey {
    /// Whether two keys are the same.
    pub fn same(&self, other: &PositionKey) -> (r: bool)
        ensures
            r == (self@ == other@),
    {
        same_text(self.0.as_str(), other.0.as_str())
    }
}

/// How often a key occurs among the first `n`.
pub open spec fn occurrences(keys: Seq<Seq<char>>, key: Seq<char>, n: int) -> nat
    decreases n,
{
    if n <= 0 {
        0
    } else {
        occurrences(keys, key, n - 1) + if keys[n - 1] == key {
            1nat
        } else {
            0nat
        }
    }
}

/// Where a key occurs first, at or after `from`.
pub open spec fn first_place(keys: Seq<Seq<char>>, key: Seq<char>, from: int) -> Option<int>
    decreases keys.len() - from,
{
    if from < 0 || from >= keys.len() {
        None
    } else if keys[from] == key {
        Some(from)
    } else {
        first_place(keys, key, from + 1)
    }
}

/// Where a key occurs first, it occurs, and nowhere before; and it is found
/// wherever it occurs.
pub proof fn law_the_first_place_is_the_first(
    keys: Seq<Seq<char>>,
    key: Seq<char>,
    from: int,
)
    requires
        0 <= from <= keys.len(),
    ensures
        first_place(keys, key, from) matches Some(place) ==> {
            &&& from <= place < keys.len()
            &&& keys[place] == key
            &&& forall|k: int| from <= k < place ==> #[trigger] keys[k] != key
        },
        first_place(keys, key, from) is None ==> forall|k: int|
            from <= k < keys.len() ==> #[trigger] keys[k] != key,
    decreases keys.len() - from,
{
    if from < keys.len() {
        law_the_first_place_is_the_first(keys, key, from + 1);
    }
}

/// Another key at the end counts once if it is the one that is counted, and not
/// at all if it is another; none counts before there is any.
pub proof fn law_each_occurrence_counts_once(
    keys: Seq<Seq<char>>,
    key: Seq<char>,
    next: Seq<char>,
)
    ensures
        occurrences(keys, key, 0) == 0,
        occurrences(keys.push(next), key, keys.len() as int + 1) == occurrences(
            keys,
            key,
            keys.len() as int,
        ) + (if next == key {
            1int
        } else {
            0
        }),
{
    lemma_occurrences_before(keys, keys.push(next), key, keys.len() as int);
}

proof fn lemma_occurrences_before(
    a: Seq<Seq<char>>,
    b: Seq<Seq<char>>,
    key: Seq<char>,
    n: int,
)
    requires
        0 <= n <= a.len(),
        n <= b.len(),
        forall|k: int| 0 <= k < n ==> #[trigger] a[k] == b[k],
    ensures
        occurrences(a, key, n) == occurrences(b, key, n),
    decreases n,
{
    if n > 0 {
        assert(a[n - 1] == b[n - 1]);
        lemma_occurrences_before(a, b, key, n - 1);
    }
}

/// Whether a key occurs at three places among the first `n`.
pub open spec fn occurs_thrice(keys: Seq<Seq<char>>, key: Seq<char>, n: int) -> bool {
    exists|a: int, b: int, c: int|
        0 <= a < b < c < n && #[trigger] keys[a] == key && #[trigger] keys[b] == key
            && #[trigger] keys[c] == key
}

/// A key occurs three times or more if and only if there are three places where
/// it does.
pub proof fn law_three_occurrences_are_three_places(keys: Seq<Seq<char>>, key: Seq<char>, n: int)
    requires
        0 <= n <= keys.len(),
    ensures
        occurrences(keys, key, n) >= 3 <==> occurs_thrice(keys, key, n),
{
    if occurrences(keys, key, n) >= 3 {
        let c = lemma_last_occurrence(keys, key, n);
        let b = lemma_last_occurrence(keys, key, c);
        let a = lemma_last_occurrence(keys, key, b);
        assert(keys[a] == key && keys[b] == key && keys[c] == key);
    }
    if occurs_thrice(keys, key, n) {
        let (a, b, c) = choose|a: int, b: int, c: int|
            0 <= a < b < c < n && #[trigger] keys[a] == key && #[trigger] keys[b] == key
                && #[trigger] keys[c] == key;
        lemma_occurrences_grow(keys, key, a + 1, b);
        lemma_occurrences_grow(keys, key, b + 1, c);
        lemma_occurrences_grow(keys, key, c + 1, n);
    }
}

proof fn lemma_last_occurrence(keys: Seq<Seq<char>>, key: Seq<char>, n: int) -> (place: int)
    requires
        0 <= n <= keys.len(),
        occurrences(keys, key, n) >= 1,
    ensures
        0 <= place < n,
        keys[place] == key,
        occurrences(keys, key, place) == occurrences(keys, key, n) - 1,
    decreases n,
{
    if keys[n - 1] == key {
        n - 1
    } else {
        lemma_last_occurrence(keys, key, n - 1)
    }
}

proof fn lemma_occurrences_grow(keys: Seq<Seq<char>>, key: Seq<char>, m: int, n: int)
    requires
        m <= n,
    ensures
        occurrences(keys, key, m) <= occurrences(keys, key, n),
    decreases n - m,
{
    if m < n {
        lemma_occurrences_grow(keys, key, m, n - 1);
    }
}

/// The keys of the positions of a game, in order.
#[derive(Debug)]
pub struct RepetitionIndex {
    keys: Vec<PositionKey>,
}

impl Clone for RepetitionIndex {
    fn clone(&self) -> (r: RepetitionIndex)
        ensures
            r@ == self@,
    {
        let r = RepetitionIndex { keys: self.keys.clone() };
        assert forall|i: int| 0 <= i < self.keys@.len() implies (#[trigger] r.keys@[i])@
            == self.keys@[i]@ by {
            assert(cloned::<PositionKey>(self.keys@[i], r.keys@[i]));
        }
        assert(r@ =~= self@);
        r
    }
}

impl View for RepetitionIndex {
    type V = Seq<Seq<char>>;

    closed spec fn view(&self) -> Seq<Seq<char>> {
        self.keys@.map(|i: int, key: PositionKey| key@)
    }
}

impl RepetitionIndex {
    /// The index of a game that has not begun. Its position has occurred once.
    pub fn new(initial: &PartialPosition) -> (r: RepetitionIndex)
        ensures
            r@ == seq![key_of(initial@)],
    {
        let mut keys: Vec<PositionKey> = Vec::new();
        keys.push(position_key(initial));
        let r = RepetitionIndex { keys };
        assert(r@ =~= seq![key_of(initial@)]);
        r
    }

    /// Adds the position that a move led to, and returns how often it has
    /// occurred.
    pub fn push(&mut self, position: &PartialPosition) -> (count: usize)
        ensures
            final(self)@ == old(self)@.push(key_of(position@)),
            count == occurrences(final(self)@, key_of(position@), final(self)@.len() as int),
            forall|other: Placement|
                other.diagram.squares.len() == 81 ==> (#[trigger] key_of(other) == key_of(position@)
                    <==> same_position(other, position@)),
    {
        let key = position_key(position);
        let ghost text = key@;
        self.keys.push(key);
        assert(self@ =~= old(self)@.push(text));
        let last: usize = self.keys.len() - 1;
        let mut count: usize = 0;
        let mut i: usize = 0;
        while i < self.keys.len()
            invariant
                i <= self.keys@.len(),
                last == self.keys@.len() - 1,
                self@ == old(self)@.push(text),
                self.keys@[last as int]@ == text,
                count == occurrences(self@, text, i as int),
                count <= i,
            decreases self.keys@.len() - i,
        {
            assert(self@[i as int] == self.keys@[i as int]@);
            if self.keys[i].same(&self.keys[last]) {
                count += 1;
            }
            i += 1;
        }
        count
    }

    /// Takes the last position off.
    pub fn pop(&mut self)
        ensures
            old(self)@.len() > 0 ==> final(self)@ == old(self)@.drop_last(),
            old(self)@.len() == 0 ==> final(self)@ == old(self)@,
    {
        let _ = self.keys.pop();
        assert(old(self)@.len() > 0 ==> self@ =~= old(self)@.drop_last());
    }

    /// Where the last position occurred first.
    pub fn first_occurrence(&self) -> (r: Option<usize>)
        ensures
            match r {
                Some(place) => self@.len() > 0 && first_place(self@, self@.last(), 0) == Some(
                    place as int,
                ),
                None => self@.len() == 0,
            },
    {
        if self.keys.len() == 0 {
            return None;
        }
        let last: usize = self.keys.len() - 1;
        let mut i: usize = 0;
        assert(self@.last() == self.keys@[last as int]@);
        while !self.keys[i].same(&self.keys[last])
            invariant
                i <= last,
                last == self.keys@.len() - 1,
                self@.len() == self.keys@.len(),
                self@.last() == self.keys@[last as int]@,
                first_place(self@, self@.last(), 0) == first_place(self@, self@.last(), i as int),
            decreases last - i,
        {
            assert(self@[i as int] == self.keys@[i as int]@);
            i += 1;
        }
        assert(self@[i as int] == self.keys@[i as int]@);
        Some(i)
    }
}

} // verus!
