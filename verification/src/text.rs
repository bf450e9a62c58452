//! Text: decimal numbers, bracketed sizes, joined lists, order and case.
use vstd::prelude::*;

verus! {

/// The character of one decimal digit.
pub open spec fn digit(value: nat) -> char {
    (48 + value) as char
}

/// The decimal digits of `value`, without leading zeros.
pub open spec fn decimal(value: nat) -> Seq<char>
    decreases value,
{
    if value < 10 {
        seq![digit(value)]
    } else {
        decimal(value / 10).push(digit(value % 10))
    }
}

/// A pair of sizes as `[a, b]`.
pub open spec fn size_text(size: [usize; 2]) -> Seq<char> {
    "["@ + decimal(size[0] as nat) + ", "@ + decimal(size[1] as nat) + "]"@
}

/// `parts` one after another, with `separator` between neighbours.
pub open spec fn joined(parts: Seq<Seq<char>>, separator: Seq<char>) -> Seq<char>
    decreases parts.len(),
{
    if parts.len() == 0 {
        Seq::empty()
    } else if parts.len() == 1 {
        parts[0]
    } else {
        joined(parts.drop_last(), separator) + separator + parts.last()
    }
}

/// The texts of a list of strings.
pub open spec fn texts(strings: Seq<String>) -> Seq<Seq<char>> {
    strings.map_values(|s: String| s@)
}

fn digit_text(value: usize) -> (text: &'static str)
    requires
        value < 10,
    ensures
        text@ == seq![digit(value as nat)],
{
    let text: &'static str = match value {
        0 => "0",
        1 => "1",
        2 => "2",
        3 => "3",
        4 => "4",
        5 => "5",
        6 => "6",
        7 => "7",
        8 => "8",
        _ => "9",
    };
    proof {
        reveal_strlit("0");
        reveal_strlit("1");
        reveal_strlit("2");
        reveal_strlit("3");
        reveal_strlit("4");
        reveal_strlit("5");
        reveal_strlit("6");
        reveal_strlit("7");
        reveal_strlit("8");
        reveal_strlit("9");
    }
    assert(text@ =~= seq![digit(value as nat)]);
    text
}

/// Appends `value` in decimal.
pub fn push_decimal(out: &mut String, value: usize)
    ensures
        final(out)@ == old(out)@ + decimal(value as nat),
    decreases value,
{
    if value < 10 {
        out.append(digit_text(value));
    } else {
        push_decimal(out, value / 10);
        out.append(digit_text(value % 10));
        assert(out@ =~= old(out)@ + decimal(value as nat));
    }
}

/// Appends `size` as `[a, b]`.
pub fn push_size(out: &mut String, size: [usize; 2])
    ensures
        final(out)@ == old(out)@ + size_text(size),
{
    out.append("[");
    push_decimal(out, size[0]);
    out.append(", ");
    push_decimal(out, size[1]);
    out.append("]");
    assert(out@ =~= old(out)@ + size_text(size));
}

/// `one` comes before `other` in the order of their characters, a text before
/// every longer one that it begins.
pub open spec fn before(one: Seq<char>, other: Seq<char>) -> bool
    decreases one.len(),
{
    if other.len() == 0 {
        false
    } else if one.len() == 0 {
        true
    } else if one[0] != other[0] {
        one[0] < other[0]
    } else {
        before(one.drop_first(), other.drop_first())
    }
}

/// Of two texts that differ, exactly one comes before the other.
pub proof fn lemma_before_is_total(one: Seq<char>, other: Seq<char>)
    ensures
        !before(one, one),
        one != other ==> before(one, other) != before(other, one),
    decreases one.len(),
{
    if one.len() > 0 {
        lemma_before_is_total(one.drop_first(), one.drop_first());
    }
    if one.len() > 0 && other.len() > 0 {
        if one[0] == other[0] {
            lemma_before_is_total(one.drop_first(), other.drop_first());
            if one.drop_first() == other.drop_first() {
                assert(one =~= seq![one[0]] + one.drop_first());
                assert(other =~= seq![other[0]] + other.drop_first());
            }
        }
    } else if one != other {
        assert(one.len() == 0 && other.len() == 0 ==> one =~= other);
    }
}

/// What comes before a text comes before all that it comes before.
pub proof fn lemma_before_is_transitive(one: Seq<char>, other: Seq<char>, third: Seq<char>)
    requires
        before(one, other),
        before(other, third),
    ensures
        before(one, third),
    decreases one.len(),
{
    if one.len() > 0 && one[0] == other[0] && other[0] == third[0] {
        lemma_before_is_transitive(one.drop_first(), other.drop_first(), third.drop_first());
    }
}

/// Tests whether `one` comes before `other`.
pub fn is_before(one: &str, other: &str) -> (result: bool)
    ensures
        result == before(one@, other@),
{
    let one_len: usize = one.unicode_len();
    let other_len: usize = other.unicode_len();
    let mut index: usize = 0;
    proof {
        assert(one@.skip(0) =~= one@);
        assert(other@.skip(0) =~= other@);
    }
    while index < one_len && index < other_len
        invariant
            index <= one_len,
            index <= other_len,
            one_len == one@.len(),
            other_len == other@.len(),
            before(one@, other@) == before(one@.skip(index as int), other@.skip(index as int)),
        decreases one_len - index,
    {
        let a: char = one.get_char(index);
        let b: char = other.get_char(index);
        if a != b {
            return a < b;
        }
        proof {
            assert(one@.skip(index as int).drop_first() =~= one@.skip(index + 1));
            assert(other@.skip(index as int).drop_first() =~= other@.skip(index + 1));
        }
        index = index + 1;
    }
    index < other_len
}

/// A character with an upper-case ASCII letter made lower-case.
pub open spec fn lower(c: char) -> char {
    if 'A' <= c && c <= 'Z' {
        ((c as u32 + 32) as u8) as char
    } else {
        c
    }
}

/// `text` is `expected` but for the case of ASCII letters in it.
pub open spec fn matches_lower(text: Seq<char>, expected: Seq<char>) -> bool {
    text.map_values(|c: char| lower(c)) == expected
}

fn lower_char(c: char) -> (result: char)
    ensures
        result == lower(c),
{
    if 'A' <= c && c <= 'Z' {
        ((c as u32 + 32) as u8) as char
    } else {
        c
    }
}

/// Tests whether `text` is `expected` but for the case of ASCII letters in it.
pub fn is_lower_match(text: &str, expected: &str) -> (result: bool)
    ensures
        result == matches_lower(text@, expected@),
{
    let len: usize = text.unicode_len();
    let ghost lowered = text@.map_values(|c: char| lower(c));
    if len != expected.unicode_len() {
        return false;
    }
    let mut index: usize = 0;
    while index < len
        invariant
            index <= len,
            len == text@.len(),
            len == expected@.len(),
            lowered == text@.map_values(|c: char| lower(c)),
            forall|i: int| 0 <= i < index ==> #[trigger] lowered[i] == expected@[i],
        decreases len - index,
    {
        if lower_char(text.get_char(index)) != expected.get_char(index) {
            proof {
                assert(lowered[index as int] != expected@[index as int]);
            }
            return false;
        }
        index = index + 1;
    }
    proof {
        assert(lowered =~= expected@);
    }
    true
}

/// Decimals read back: taken digit by digit, they give the number again, and a number of
/// more than one digit does not start with a zero.
pub proof fn law_decimals_read_back(value: nat)
    ensures
        decimal(value).len() > 0,
        decimal(value).fold_left(0int, |number: int, c: char| 10 * number + (c as int - 48))
            == value,
        decimal(value).len() > 1 ==> decimal(value)[0] != '0',
        forall|place: int|
            0 <= place < decimal(value).len() ==> '0' <= #[trigger] decimal(value)[place]
                && decimal(value)[place] <= '9',
    decreases value,
{
    let read = |number: int, c: char| 10 * number + (c as int - 48);
    let text = decimal(value);
    if value < 10 {
        assert(text.drop_last() =~= Seq::<char>::empty());
        assert(text.last() == digit(value));
        assert(text.drop_last().fold_left(0int, read) == 0);
    } else {
        law_decimals_read_back(value / 10);
        assert(text.drop_last() =~= decimal(value / 10));
        assert(text.last() == digit(value % 10));
        assert(text[0] == decimal(value / 10)[0]);
        if value / 10 < 10 {
            assert(decimal(value / 10)[0] == digit(value / 10));
            assert(digit(value / 10) as int == 48 + value / 10);
        } else {
            law_decimals_read_back(value / 10 / 10);
            assert(decimal(value / 10).len() > 1);
        }
        assert forall|place: int| 0 <= place < text.len() implies '0' <= #[trigger] text[place]
            && text[place] <= '9' by {
            if place < text.len() - 1 {
                assert(text[place] == decimal(value / 10)[place]);
            }
        }
    }
}

/// Texts are ordered by the first character in which they differ, and a text comes before
/// all that it begins.
pub proof fn law_the_first_difference_decides(
    start: Seq<char>,
    one: char,
    rest: Seq<char>,
    other: char,
    other_rest: Seq<char>,
)
    requires
        one != other,
    ensures
        before(start + seq![one] + rest, start + seq![other] + other_rest) <==> one < other,
        before(start, start + seq![one] + rest),
        !before(start + seq![one] + rest, start),
    decreases start.len(),
{
    let first = start + seq![one] + rest;
    let second = start + seq![other] + other_rest;
    if start.len() == 0 {
        assert(first[0] == one && second[0] == other);
    } else {
        law_the_first_difference_decides(start.drop_first(), one, rest, other, other_rest);
        assert(first.drop_first() =~= start.drop_first() + seq![one] + rest);
        assert(second.drop_first() =~= start.drop_first() + seq![other] + other_rest);
        assert(first[0] == start[0] && second[0] == start[0]);
    }
}

/// Only the capitals of ASCII change: each becomes the letter 32 further on.
pub proof fn law_only_capitals_change(c: char)
    ensures
        'A' <= c && c <= 'Z' ==> lower(c) as int == c as int + 32,
        !('A' <= c && c <= 'Z') ==> lower(c) == c,
        lower(lower(c)) == lower(c),
{
}

/// A joined list is its only part, or the list without its last part, the separator and that
/// part.
pub proof fn law_parts_are_joined_in_order(
    parts: Seq<Seq<char>>,
    part: Seq<char>,
    separator: Seq<char>,
)
    ensures
        joined(seq![part], separator) == part,
        parts.len() > 0 ==> joined(parts.push(part), separator) == joined(parts, separator)
            + separator + part,
        joined(Seq::<Seq<char>>::empty(), separator).len() == 0,
{
    assert(parts.push(part).drop_last() =~= parts);
}

} // verus!
