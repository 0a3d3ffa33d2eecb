//! Text as sequences of characters: words, decimal numbers, and the pieces
//! that messages are put together from.

use vstd::prelude::*;

verus! {

/// `String::push`: appends a character.
pub assume_specification[ String::push ](text: &mut String, c: char)
    ensures
        final(text)@ == old(text)@.push(c),
;

/// Whether the character is white space.
pub open spec fn is_space(c: char) -> bool {
    let code = c as int;
    ||| 0x9 <= code <= 0xd
    ||| code == 0x20
    ||| code == 0x85
    ||| code == 0xa0
    ||| code == 0x1680
    ||| 0x2000 <= code <= 0x200a
    ||| code == 0x2028
    ||| code == 0x2029
    ||| code == 0x202f
    ||| code == 0x205f
    ||| code == 0x3000
}

pub fn is_whitespace(c: char) -> (r: bool)
    ensures
        r == is_space(c),
{
    let code: u32 = c as u32;
    (0x9 <= code && code <= 0xd) || code == 0x20 || code == 0x85 || code == 0xa0 || code == 0x1680
        || (0x2000 <= code && code <= 0x200a) || code == 0x2028 || code == 0x2029 || code == 0x202f
        || code == 0x205f || code == 0x3000
}

/// How many characters the text starts with before the first white space.
pub open spec fn word_len(text: Seq<char>) -> nat
    decreases text.len(),
{
    if text.len() == 0 || is_space(text[0]) {
        0
    } else {
        1 + word_len(text.skip(1))
    }
}

/// How much white space the text starts with.
pub open spec fn space_len(text: Seq<char>) -> nat
    decreases text.len(),
{
    if text.len() == 0 || !is_space(text[0]) {
        0
    } else {
        1 + space_len(text.skip(1))
    }
}

/// The words of the text: what white space leaves of it, in order.
pub open spec fn words(text: Seq<char>) -> Seq<Seq<char>>
    decreases text.len(),
{
    if text.len() == 0 {
        Seq::empty()
    } else if is_space(text[0]) {
        words(text.skip(1))
    } else {
        let n = word_len(text);
        if n == 0 || n > text.len() {
            Seq::empty()
        } else {
            seq![text.take(n as int)] + words(text.skip(n as int))
        }
    }
}

pub proof fn lemma_word_len(text: Seq<char>)
    ensures
        word_len(text) <= text.len(),
        forall|i: int| 0 <= i < word_len(text) ==> !is_space(#[trigger] text[i]),
        word_len(text) < text.len() ==> is_space(text[word_len(text) as int]),
        text.len() > 0 && !is_space(text[0]) ==> word_len(text) >= 1,
    decreases text.len(),
{
    if text.len() > 0 && !is_space(text[0]) {
        lemma_word_len(text.skip(1));
        assert forall|i: int| 0 <= i < word_len(text) implies !is_space(#[trigger] text[i]) by {
            if i > 0 {
                assert(text.skip(1)[i - 1] == text[i]);
            }
        }
    }
}

/// A run of characters without white space, ended by white space or the end of
/// the text, is the word that the text starts with.
pub proof fn lemma_word_len_is(text: Seq<char>, n: int)
    requires
        0 <= n <= text.len(),
        forall|i: int| 0 <= i < n ==> !is_space(#[trigger] text[i]),
        n < text.len() ==> is_space(text[n]),
    ensures
        word_len(text) == n,
    decreases text.len(),
{
    if n > 0 {
        assert forall|i: int| 0 <= i < n - 1 implies !is_space(#[trigger] text.skip(1)[i]) by {
            assert(text.skip(1)[i] == text[i + 1]);
        }
        lemma_word_len_is(text.skip(1), n - 1);
    }
}

pub proof fn lemma_space_len(text: Seq<char>)
    ensures
        space_len(text) <= text.len(),
        forall|i: int| 0 <= i < space_len(text) ==> is_space(#[trigger] text[i]),
        space_len(text) < text.len() ==> !is_space(text[space_len(text) as int]),
    decreases text.len(),
{
    if text.len() > 0 && is_space(text[0]) {
        lemma_space_len(text.skip(1));
        assert forall|i: int| 0 <= i < space_len(text) implies is_space(#[trigger] text[i]) by {
            if i > 0 {
                assert(text.skip(1)[i - 1] == text[i]);
            }
        }
    }
}

/// The texts that a list of strings holds.
pub open spec fn texts(list: Seq<String>) -> Seq<Seq<char>> {
    list.map(|i: int, text: String| text@)
}

/// The characters of a text.
pub fn chars_of(text: &str) -> (r: Vec<char>)
    ensures
        r@ == text@,
{
    let mut chars: Vec<char> = Vec::new();
    for c in iter: text.chars()
        invariant
            iter.seq() == text@,
            chars@ == text@.take(iter.index() as int),
    {
        chars.push(c);
        assert(text@.take(iter.index() as int + 1) =~= text@.take(iter.index() as int).push(c));
    }
    assert(text@.take(text@.len() as int) =~= text@);
    chars
}

/// The text of some of the characters.
pub fn text_of(chars: &Vec<char>, from: usize, to: usize) -> (r: String)
    requires
        from <= to <= chars@.len(),
    ensures
        r@ == chars@.subrange(from as int, to as int),
{
    let mut text = String::new();
    let mut i: usize = from;
    assert(chars@.subrange(from as int, from as int) =~= Seq::empty());
    while i < to
        invariant
            from <= i <= to <= chars@.len(),
            text@ == chars@.subrange(from as int, i as int),
        decreases to - i,
    {
        text.push(chars[i]);
        assert(chars@.subrange(from as int, i as int + 1) =~= chars@.subrange(
            from as int,
            i as int,
        ).push(chars@[i as int]));
        i += 1;
    }
    text
}

/// The words of a text.
pub fn split_words(text: &str) -> (r: Vec<String>)
    ensures
        texts(r@) == words(text@),
{
    let chars = chars_of(text);
    let mut list: Vec<String> = Vec::new();
    let mut i: usize = 0;
    assert(text@.skip(0) =~= text@);
    assert(texts(list@) =~= Seq::<Seq<char>>::empty());
    while i < chars.len()
        invariant
            i <= chars@.len(),
            chars@ == text@,
            texts(list@) + words(text@.skip(i as int)) == words(text@),
        decreases chars@.len() - i,
    {
        let ghost rest = text@.skip(i as int);
        if is_whitespace(chars[i]) {
            assert(rest.skip(1) =~= text@.skip(i as int + 1));
            i += 1;
        } else {
            let start: usize = i;
            while i < chars.len() && !is_whitespace(chars[i])
                invariant
                    start <= i <= chars@.len(),
                    chars@ == text@,
                    forall|j: int| start <= j < i ==> !is_space(#[trigger] text@[j]),
                decreases chars@.len() - i,
            {
                i += 1;
            }
            let word = text_of(&chars, start, i);
            proof {
                let n = i - start;
                assert forall|j: int| 0 <= j < n implies !is_space(#[trigger] rest[j]) by {
                    assert(rest[j] == text@[start + j]);
                }
                lemma_word_len_is(rest, n);
                lemma_word_len(rest);
                assert(rest.take(n) =~= word@);
                assert(rest.skip(n) =~= text@.skip(i as int));
                assert(texts(list@.push(word)) =~= texts(list@).push(word@));
                assert(texts(list@).push(word@) + words(rest.skip(n)) =~= texts(list@) + (seq![
                    word@,
                ] + words(rest.skip(n))));
            }
            list.push(word);
        }
    }
    assert(text@.skip(i as int) =~= Seq::empty());
    assert(texts(list@) + Seq::<Seq<char>>::empty() =~= texts(list@));
    list
}

/// Whether two texts are the same.
pub fn same_text(a: &str, b: &str) -> (r: bool)
    ensures
        r == (a@ == b@),
{
    let left = a.to_owned();
    let right = b.to_owned();
    left == right
}

/// The digit of a number below ten.
pub open spec fn digit(n: nat) -> char {
    (('0' as int) + n) as char
}

/// The decimal digits of a number.
pub open spec fn digits(n: nat) -> Seq<char>
    decreases n,
{
    if n < 10 {
        seq![digit(n)]
    } else {
        digits(n / 10).push(digit(n % 10))
    }
}

/// A number in decimal, with its sign if it is negative.
pub open spec fn decimal(n: int) -> Seq<char> {
    if n < 0 {
        seq!['-'] + digits((-n) as nat)
    } else {
        digits(n as nat)
    }
}

fn push_digit(text: &mut String, n: u8)
    requires
        n < 10,
    ensures
        final(text)@ == old(text)@.push(digit(n as nat)),
{
    let c: char = (48u8 + n) as char;
    text.push(c);
}

/// Appends a number in decimal.
pub fn push_number(text: &mut String, n: u128)
    ensures
        final(text)@ == old(text)@ + digits(n as nat),
    decreases n,
{
    let ghost before = text@;
    if n < 10 {
        push_digit(text, n as u8);
        assert(text@ =~= before + digits(n as nat));
    } else {
        push_number(text, n / 10);
        push_digit(text, (n % 10) as u8);
        assert(text@ =~= before + digits(n as nat));
    }
}

/// Appends a number in decimal, with its sign if it is negative.
pub fn push_integer(text: &mut String, n: i64)
    ensures
        final(text)@ == old(text)@ + decimal(n as int),
{
    let ghost before = text@;
    if n < 0 {
        text.push('-');
        push_number(text, (-(n as i128)) as u128);
        assert(text@ =~= before + decimal(n as int));
    } else {
        push_number(text, n as u128);
    }
}

pub open spec fn is_digit(c: char) -> bool {
    '0' <= c <= '9'
}

/// Whether the text is decimal digits and nothing else.
pub open spec fn all_digits(text: Seq<char>) -> bool {
    text.len() > 0 && forall|i: int| 0 <= i < text.len() ==> is_digit(#[trigger] text[i])
}

/// The number that decimal digits spell.
pub open spec fn value_of(text: Seq<char>) -> int
    decreases text.len(),
{
    if text.len() == 0 {
        0
    } else {
        value_of(text.drop_last()) * 10 + (text.last() as int - '0' as int)
    }
}

/// The number without sign that the text spells, if it spells one of at most
/// `max`. A leading `+` is allowed.
pub open spec fn unsigned(text: Seq<char>, max: int) -> Option<int> {
    let body = if text.len() > 0 && text[0] == '+' {
        text.skip(1)
    } else {
        text
    };
    if all_digits(body) && value_of(body) <= max {
        Some(value_of(body))
    } else {
        None
    }
}

/// The number that the text spells, if it spells one that 64 bits hold. A
/// leading `+` or `-` is allowed.
pub open spec fn signed(text: Seq<char>) -> Option<int> {
    if text.len() > 0 && text[0] == '-' {
        if all_digits(text.skip(1)) && value_of(text.skip(1)) <= 0x8000_0000_0000_0000 {
            Some(-value_of(text.skip(1)))
        } else {
            None
        }
    } else {
        unsigned(text, 0x7fff_ffff_ffff_ffff)
    }
}

proof fn lemma_value_grows(text: Seq<char>, n: int)
    requires
        0 <= n <= text.len(),
        all_digits(text),
    ensures
        0 <= value_of(text.take(n)) <= value_of(text),
    decreases text.len(),
{
    if n == text.len() {
        assert(text.take(n) =~= text);
        lemma_value_is_natural(text);
    } else if text.len() > 1 {
        let head = text.drop_last();
        assert forall|i: int| 0 <= i < head.len() implies is_digit(#[trigger] head[i]) by {
            assert(head[i] == text[i]);
        }
        lemma_value_grows(head, n);
        assert(head.take(n) =~= text.take(n));
        assert(is_digit(text[text.len() - 1]));
        lemma_value_is_natural(head);
    } else {
        assert(text.take(n) =~= Seq::empty());
        lemma_value_is_natural(text);
    }
}

proof fn lemma_value_is_natural(text: Seq<char>)
    requires
        forall|i: int| 0 <= i < text.len() ==> is_digit(#[trigger] text[i]),
    ensures
        value_of(text) >= 0,
    decreases text.len(),
{
    if text.len() > 0 {
        let head = text.drop_last();
        assert forall|i: int| 0 <= i < head.len() implies is_digit(#[trigger] head[i]) by {
            assert(head[i] == text[i]);
        }
        lemma_value_is_natural(head);
        assert(is_digit(text[text.len() - 1]));
    }
}

/// The number that the characters from `from` on spell, if they are digits and
/// it is at most `max`.
fn parse_digits(chars: &Vec<char>, from: usize, max: u64) -> (r: Option<u64>)
    requires
        from <= chars@.len(),
    ensures
        match r {
            Some(n) => all_digits(chars@.skip(from as int)) && value_of(chars@.skip(from as int))
                == n && n <= max,
            None => !(all_digits(chars@.skip(from as int)) && value_of(chars@.skip(from as int))
                <= max),
        },
{
    let ghost text = chars@.skip(from as int);
    if from == chars.len() {
        return None;
    }
    let mut n: u64 = 0;
    let mut i: usize = from;
    assert(text.take(0) =~= Seq::empty());
    while i < chars.len()
        invariant
            from <= i <= chars@.len(),
            text == chars@.skip(from as int),
            n == value_of(text.take(i - from)),
            n <= max,
            forall|k: int| 0 <= k < i - from ==> is_digit(#[trigger] text[k]),
        decreases chars@.len() - i,
    {
        let c = chars[i];
        assert(text[i - from] == c);
        if c < '0' || c > '9' {
            return None;
        }
        let next: u128 = n as u128 * 10 + (c as u32 as u128 - 48);
        proof {
            assert(text.take(i - from + 1).drop_last() =~= text.take(i - from));
            assert(next == value_of(text.take(i - from + 1)));
        }
        if next > max as u128 {
            proof {
                if all_digits(text) {
                    lemma_value_grows(text, i - from + 1);
                }
            }
            return None;
        }
        n = next as u64;
        i += 1;
    }
    assert(text.take(text.len() as int) =~= text);
    Some(n)
}

/// The number without sign that the text spells, if it spells one of at most
/// `max`.
pub fn parse_unsigned(text: &str, max: u64) -> (r: Option<u64>)
    ensures
        match r {
            Some(n) => unsigned(text@, max as int) == Some(n as int),
            None => unsigned(text@, max as int) is None,
        },
{
    let chars = chars_of(text);
    assert(chars@.skip(0) =~= text@);
    if chars.len() > 0 && chars[0] == '+' {
        parse_digits(&chars, 1, max)
    } else {
        parse_digits(&chars, 0, max)
    }
}

/// The number that the text spells, if it spells one that 64 bits hold.
pub fn parse_signed(text: &str) -> (r: Option<i64>)
    ensures
        match r {
            Some(n) => signed(text@) == Some(n as int),
            None => signed(text@) is None,
        },
{
    let chars = chars_of(text);
    if chars.len() > 0 && chars[0] == '-' {
        match parse_digits(&chars, 1, 0x8000_0000_0000_0000) {
            Some(n) => Some((-(n as i128)) as i64),
            None => None,
        }
    } else {
        match parse_unsigned(text, 0x7fff_ffff_ffff_ffff) {
            Some(n) => Some(n as i64),
            None => None,
        }
    }
}

/// The text without the white space that it starts with.
pub open spec fn trimmed_start(text: Seq<char>) -> Seq<char>
    decreases text.len(),
{
    if text.len() > 0 && is_space(text[0]) {
        trimmed_start(text.skip(1))
    } else {
        text
    }
}

/// The text without the white space that it ends with.
pub open spec fn trimmed_end(text: Seq<char>) -> Seq<char>
    decreases text.len(),
{
    if text.len() > 0 && is_space(text.last()) {
        trimmed_end(text.drop_last())
    } else {
        text
    }
}

/// The text without the white space around it.
pub open spec fn trimmed(text: Seq<char>) -> Seq<char> {
    trimmed_end(trimmed_start(text))
}

/// Where the characters from `from` to `to` begin once the white space in front
/// is left out.
pub fn skip_space(chars: &Vec<char>, from: usize, to: usize) -> (r: usize)
    requires
        from <= to <= chars@.len(),
    ensures
        from <= r <= to,
        trimmed_start(chars@.subrange(from as int, to as int)) == chars@.subrange(
            r as int,
            to as int,
        ),
{
    let ghost text = chars@.subrange(from as int, to as int);
    let mut i: usize = from;
    while i < to && is_whitespace(chars[i])
        invariant
            from <= i <= to <= chars@.len(),
            trimmed_start(text) == trimmed_start(chars@.subrange(i as int, to as int)),
        decreases to - i,
    {
        assert(chars@.subrange(i as int, to as int).skip(1) =~= chars@.subrange(
            i as int + 1,
            to as int,
        ));
        i += 1;
    }
    i
}

/// Where the characters from `from` to `to` end once the white space behind is
/// left out.
pub fn drop_space(chars: &Vec<char>, from: usize, to: usize) -> (r: usize)
    requires
        from <= to <= chars@.len(),
    ensures
        from <= r <= to,
        trimmed_end(chars@.subrange(from as int, to as int)) == chars@.subrange(
            from as int,
            r as int,
        ),
{
    let ghost text = chars@.subrange(from as int, to as int);
    let mut i: usize = to;
    while i > from && is_whitespace(chars[i - 1])
        invariant
            from <= i <= to <= chars@.len(),
            trimmed_end(text) == trimmed_end(chars@.subrange(from as int, i as int)),
        decreases i,
    {
        assert(chars@.subrange(from as int, i as int).last() == chars@[i - 1]);
        assert(chars@.subrange(from as int, i as int).drop_last() =~= chars@.subrange(
            from as int,
            i as int - 1,
        ));
        i -= 1;
    }
    proof {
        if i > from {
            assert(chars@.subrange(from as int, i as int).last() == chars@[i - 1]);
        }
    }
    i
}

/// The characters from `from` to `to` without the white space around them.
pub fn trimmed_part(chars: &Vec<char>, from: usize, to: usize) -> (r: String)
    requires
        from <= to <= chars@.len(),
    ensures
        r@ == trimmed(chars@.subrange(from as int, to as int)),
{
    let start: usize = skip_space(chars, from, to);
    let end: usize = drop_space(chars, start, to);
    text_of(chars, start, end)
}

/// The text without the white space around it.
pub fn trim(text: &str) -> (r: String)
    ensures
        r@ == trimmed(text@),
{
    let chars = chars_of(text);
    let len: usize = chars.len();
    assert(chars@.subrange(0, len as int) =~= text@);
    trimmed_part(&chars, 0, len)
}

/// Where the word that starts at `from` ends.
pub fn word_end(chars: &Vec<char>, from: usize) -> (r: usize)
    requires
        from <= chars@.len(),
    ensures
        from <= r <= chars@.len(),
        r - from == word_len(chars@.skip(from as int)),
{
    let mut i: usize = from;
    while i < chars.len() && !is_whitespace(chars[i])
        invariant
            from <= i <= chars@.len(),
            forall|k: int| from <= k < i ==> !is_space(#[trigger] chars@[k]),
        decreases chars@.len() - i,
    {
        i += 1;
    }
    proof {
        let text = chars@.skip(from as int);
        assert forall|k: int| 0 <= k < i - from implies !is_space(#[trigger] text[k]) by {
            assert(text[k] == chars@[from + k]);
        }
        lemma_word_len_is(text, i - from);
    }
    i
}

proof fn lemma_digits_read_back(n: nat)
    ensures
        digits(n).len() > 0,
        value_of(digits(n)) == n,
        forall|i: int| 0 <= i < digits(n).len() ==> is_digit(#[trigger] digits(n)[i]),
    decreases n,
{
    if n >= 10 {
        lemma_digits_read_back(n / 10);
        assert(digits(n).drop_last() =~= digits(n / 10));
        assert(digits(n).last() as int == '0' as int + n % 10);
        assert forall|i: int| 0 <= i < digits(n).len() implies is_digit(#[trigger] digits(n)[i]) by {
            if i < digits(n / 10).len() {
                assert(digits(n)[i] == digits(n / 10)[i]);
            }
        }
    } else {
        assert(digits(n).drop_last() =~= Seq::<char>::empty());
        assert(digits(n).last() as int == '0' as int + n);
        reveal_with_fuel(value_of, 2);
    }
}

/// A number that is written out reads as itself, with its sign or without; and
/// two numbers are never written alike.
pub proof fn law_a_number_reads_back(n: int, max: int)
    ensures
        0 <= n <= max ==> unsigned(digits(n as nat), max) == Some(n),
        0 <= max < n ==> unsigned(digits(n as nat), max) is None,
        i64::MIN <= n <= i64::MAX ==> signed(decimal(n)) == Some(n),
        n < i64::MIN || n > i64::MAX ==> signed(decimal(n)) is None,
{
    if n >= 0 {
        lemma_digits_read_back(n as nat);
        assert(is_digit(digits(n as nat)[0]));
    } else {
        lemma_digits_read_back((-n) as nat);
        assert(decimal(n).skip(1) =~= digits((-n) as nat));
    }
}

/// Whether the text is digits from `0` to `9`, one at least.
pub open spec fn spells_a_number(text: Seq<char>) -> bool {
    &&& text.len() > 0
    &&& forall|i: int| 0 <= i < text.len() ==> '0' <= #[trigger] text[i] <= '9'
}

/// Text that spells a number is digits, one at least, behind a `+` at most, or a
/// `-` where there may be one; its value is what the digits say. Nothing else
/// spells one.
pub proof fn law_only_digits_spell_a_number(text: Seq<char>, max: int)
    requires
        max >= 0,
    ensures
        ({
            let body = if text.len() > 0 && text[0] == '+' {
                text.skip(1)
            } else {
                text
            };
            &&& unsigned(text, max) is Some <==> spells_a_number(body) && value_of(body) <= max
            &&& unsigned(text, max) matches Some(n) ==> n == value_of(body)
        }),
        text.len() > 0 && text[0] == '-' ==> unsigned(text, max) is None,
        text.len() > 0 && text[0] == '-' && signed(text) is Some ==> -signed(text)->0 == value_of(
            text.skip(1),
        ),
        text.len() == 0 || text[0] != '-' ==> signed(text) == unsigned(text, i64::MAX as int),
{
    let body = if text.len() > 0 && text[0] == '+' {
        text.skip(1)
    } else {
        text
    };
    if text.len() > 0 && text[0] == '-' {
        assert(body[0] == '-');
    }
    if all_digits(body) {
        assert forall|i: int| 0 <= i < body.len() implies '0' <= #[trigger] body[i] <= '9' by {
            assert(is_digit(body[i]));
        }
    }
    if spells_a_number(body) {
        assert forall|i: int| 0 <= i < body.len() implies is_digit(#[trigger] body[i]) by {}
    }
    assert(all_digits(body) == spells_a_number(body));
}

/// One digit more makes the number ten times as large, and adds the digit.
pub proof fn law_digits_count_in_tens(text: Seq<char>, c: char)
    requires
        '0' <= c <= '9',
    ensures
        value_of(Seq::empty()) == 0,
        value_of(text.push(c)) == 10 * value_of(text) + (c as int - '0' as int),
{
    assert(text.push(c).drop_last() =~= text);
}

/// White space parts words, whichever and however much: what stands on either
/// side of it has its words to itself. No word is empty, and none holds white
/// space.
pub proof fn law_white_space_parts_words(a: Seq<char>, space: char, b: Seq<char>)
    requires
        is_space(space),
    ensures
        words(a.push(space) + b) == words(a) + words(b),
        forall|i: int|
            0 <= i < words(a).len() ==> (#[trigger] words(a)[i]).len() > 0 && forall|k: int|
                0 <= k < words(a)[i].len() ==> !is_space(#[trigger] words(a)[i][k]),
    decreases a.len(),
{
    let text = a.push(space) + b;
    if a.len() == 0 {
        assert(text.skip(1) =~= b);
        assert(words(a) + words(b) =~= words(b));
    } else if is_space(a[0]) {
        law_white_space_parts_words(a.skip(1), space, b);
        assert(text.skip(1) =~= a.skip(1).push(space) + b);
    } else {
        let n = word_len(a) as int;
        lemma_word_len(a);
        law_white_space_parts_words(a.skip(n), space, b);
        assert forall|i: int| 0 <= i < n implies !is_space(#[trigger] text[i]) by {
            assert(text[i] == a[i]);
        }
        lemma_word_len_is(text, n);
        assert(text.take(n) =~= a.take(n));
        assert(text.skip(n) =~= a.skip(n).push(space) + b);
        assert(words(text) =~= seq![a.take(n)] + (words(a.skip(n)) + words(b)));
        assert(words(text) =~= words(a) + words(b));
        assert forall|i: int| 0 <= i < words(a).len() implies (#[trigger] words(a)[i]).len() > 0
            && forall|k: int|
            0 <= k < words(a)[i].len() ==> !is_space(#[trigger] words(a)[i][k]) by {
            if i == 0 {
                assert(words(a)[0] == a.take(n));
            } else {
                assert(words(a)[i] == words(a.skip(n))[i - 1]);
            }
        }
    }
}

/// Text without white space is one word, if it is any.
pub proof fn law_text_without_white_space_is_a_word(text: Seq<char>)
    requires
        text.len() > 0,
        forall|i: int| 0 <= i < text.len() ==> !is_space(#[trigger] text[i]),
    ensures
        words(text) == seq![text],
{
    lemma_word_len_is(text, text.len() as int);
    assert(text.take(text.len() as int) =~= text);
    assert(text.skip(text.len() as int) =~= Seq::<char>::empty());
    assert(words(Seq::empty()) =~= Seq::empty());
    assert(words(text) =~= seq![text]);
}

proof fn lemma_trimmed_start(text: Seq<char>) -> (n: int)
    ensures
        0 <= n <= text.len(),
        trimmed_start(text) == text.skip(n),
        forall|i: int| 0 <= i < n ==> is_space(#[trigger] text[i]),
        n < text.len() ==> !is_space(text[n]),
    decreases text.len(),
{
    if text.len() > 0 && is_space(text[0]) {
        let n = lemma_trimmed_start(text.skip(1));
        assert(text.skip(1).skip(n) =~= text.skip(n + 1));
        assert forall|i: int| 0 <= i < n + 1 implies is_space(#[trigger] text[i]) by {
            if i > 0 {
                assert(text.skip(1)[i - 1] == text[i]);
            }
        }
        n + 1
    } else {
        assert(text.skip(0) =~= text);
        0
    }
}

proof fn lemma_trimmed_end(text: Seq<char>) -> (n: int)
    ensures
        0 <= n <= text.len(),
        trimmed_end(text) == text.take(n),
        forall|i: int| n <= i < text.len() ==> is_space(#[trigger] text[i]),
        n > 0 ==> !is_space(text[n - 1]),
    decreases text.len(),
{
    if text.len() > 0 && is_space(text.last()) {
        let n = lemma_trimmed_end(text.drop_last());
        assert(text.drop_last().take(n) =~= text.take(n));
        assert forall|i: int| n <= i < text.len() implies is_space(#[trigger] text[i]) by {
            if i < text.len() - 1 {
                assert(text.drop_last()[i] == text[i]);
            }
        }
        n
    } else {
        assert(text.take(text.len() as int) =~= text);
        text.len() as int
    }
}

/// Whether `part` is what stands in `text` from `from` to `to`, with nothing but
/// white space around it there.
pub open spec fn is_all_but_space(text: Seq<char>, part: Seq<char>, from: int, to: int) -> bool {
    &&& 0 <= from <= to <= text.len()
    &&& part == text.subrange(from, to)
    &&& forall|i: int| 0 <= i < from ==> is_space(#[trigger] text[i])
    &&& forall|i: int| to <= i < text.len() ==> is_space(#[trigger] text[i])
}

/// Trimming takes the white space off both ends of a text, all of it, and nothing
/// else.
pub proof fn law_trimming_takes_off_white_space_alone(text: Seq<char>)
    ensures
        exists|from: int, to: int| #[trigger] is_all_but_space(text, trimmed(text), from, to),
        trimmed(text).len() > 0 ==> !is_space(trimmed(text)[0]) && !is_space(trimmed(text).last()),
{
    let from = lemma_trimmed_start(text);
    let rest = text.skip(from);
    let n = lemma_trimmed_end(rest);
    assert(rest.take(n) =~= text.subrange(from, from + n));
    assert forall|i: int| from + n <= i < text.len() implies is_space(#[trigger] text[i]) by {
        assert(rest[i - from] == text[i]);
    }
    assert(is_all_but_space(text, trimmed(text), from, from + n));
}

} // verus!
