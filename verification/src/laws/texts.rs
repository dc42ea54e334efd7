//! Laws of text, from piece to piece: what trimming, replacing, writing and reading numbers make of
//! a text is given by what they make of shorter ones.

use crate::text::{
    all_digits, decimal_text, decimal_value, digit_char, digit_value, is_digit, is_white_space,
    occurs_at, parsed_usize, replaced, trimmed, trimmed_end, trimmed_start, unsigned_part,
};
use vstd::prelude::*;

verus! {

// ── Trimming ───────────────────────────────────────────────────────────────

/// White space, by code point: the controls from tab to carriage return, the space, the next line,
/// and the spaces and separators beyond ASCII.
pub open spec fn is_blank(c: char) -> bool {
    let code = c as u32;
    ||| 9 <= code <= 13
    ||| code == 32
    ||| code == 133
    ||| code == 160
    ||| code == 5760
    ||| 8192 <= code <= 8202
    ||| code == 8232
    ||| code == 8233
    ||| code == 8239
    ||| code == 8287
    ||| code == 12288
}

/// Whether a text is white space.
pub open spec fn all_blank(s: Seq<char>) -> bool {
    forall|i: int| 0 <= i < s.len() ==> is_blank(#[trigger] s[i])
}

proof fn lemma_blank_is_white(c: char)
    ensures
        is_blank(c) == is_white_space(c),
{
}

proof fn lemma_trimmed_start(before: Seq<char>, rest: Seq<char>)
    requires
        all_blank(before),
    ensures
        trimmed_start(before + rest) == trimmed_start(rest),
    decreases before.len(),
{
    let s = before + rest;
    if before.len() > 0 {
        lemma_blank_is_white(before[0]);
        assert(s[0] == before[0]);
        assert(s.skip(1) =~= before.skip(1) + rest);
        lemma_trimmed_start(before.skip(1), rest);
    } else {
        assert(s =~= rest);
    }
}

proof fn lemma_trimmed_end(rest: Seq<char>, after: Seq<char>)
    requires
        all_blank(after),
    ensures
        trimmed_end(rest + after) == trimmed_end(rest),
    decreases after.len(),
{
    let s = rest + after;
    if after.len() > 0 {
        lemma_blank_is_white(after.last());
        assert(s.last() == after.last());
        assert(s.drop_last() =~= rest + after.drop_last());
        lemma_trimmed_end(rest, after.drop_last());
    } else {
        assert(s =~= rest);
    }
}

/// Trimming takes the white space before and after a text away, and nothing of a text that neither
/// begins nor ends with any.
pub proof fn law_trimming_leaves_what_stands_between(
    before: Seq<char>,
    text: Seq<char>,
    after: Seq<char>,
)
    requires
        all_blank(before),
        all_blank(after),
        text.len() > 0 ==> !is_blank(text[0]) && !is_blank(text.last()),
    ensures
        trimmed(before + text + after) == text,
{
    assert(before + text + after =~= before + (text + after));
    lemma_trimmed_start(before, text + after);
    if text.len() > 0 {
        lemma_blank_is_white(text[0]);
        lemma_blank_is_white(text.last());
        assert((text + after)[0] == text[0]);
        lemma_trimmed_end(text, after);
    } else {
        assert(text + after =~= after + text);
        lemma_trimmed_start(after, text);
        assert(text =~= Seq::empty());
    }
}

// ── Replacement ────────────────────────────────────────────────────────────

/// Whether a text begins with another from position `at` on.
pub open spec fn stands_at(s: Seq<char>, part: Seq<char>, at: int) -> bool {
    part.is_prefix_of(s.skip(at))
}

proof fn lemma_stands_at(s: Seq<char>, part: Seq<char>, at: int)
    requires
        0 <= at <= s.len(),
    ensures
        stands_at(s, part, at) == occurs_at(s, part, at),
{
    if at + part.len() <= s.len() {
        assert(s.skip(at).subrange(0, part.len() as int) =~= s.subrange(at, at + part.len()));
    }
}

/// Up to where the text to be replaced first stands, nothing changes.
proof fn lemma_replaced_after(before: Seq<char>, rest: Seq<char>, from: Seq<char>, to: Seq<char>)
    requires
        from.len() > 0,
        forall|i: int| 0 <= i < before.len() ==> !#[trigger] stands_at(before + rest, from, i),
    ensures
        replaced(before + rest, from, to) == before + replaced(rest, from, to),
    decreases before.len(),
{
    let s = before + rest;
    if before.len() > 0 {
        assert(!stands_at(s, from, 0));
        lemma_stands_at(s, from, 0);
        assert(s.skip(1) =~= before.skip(1) + rest);
        assert forall|i: int| 0 <= i < before.skip(1).len() implies !#[trigger] stands_at(
            before.skip(1) + rest,
            from,
            i,
        ) by {
            assert(!stands_at(s, from, i + 1));
            assert(s.skip(1).skip(i) =~= s.skip(i + 1));
        }
        lemma_replaced_after(before.skip(1), rest, from, to);
        assert(s[0] == before[0]);
        assert(seq![before[0]] + (before.skip(1) + replaced(rest, from, to)) =~= before + replaced(
            rest,
            from,
            to,
        ));
    } else {
        assert(s =~= rest);
        assert(before + replaced(rest, from, to) =~= replaced(rest, from, to));
    }
}

/// Where the text to be replaced stands first, the other takes its place; what comes before stays,
/// and what comes after is gone through in the same way.
pub proof fn law_first_occurrence_is_replaced(
    before: Seq<char>,
    after: Seq<char>,
    from: Seq<char>,
    to: Seq<char>,
)
    requires
        from.len() > 0,
        forall|i: int|
            0 <= i < before.len() ==> !#[trigger] stands_at(before + from + after, from, i),
    ensures
        replaced(before + from + after, from, to) == before + to + replaced(after, from, to),
{
    let rest = from + after;
    assert(before + from + after =~= before + rest);
    lemma_replaced_after(before, rest, from, to);
    assert(rest.subrange(0, from.len() as int) =~= from);
    assert(rest.skip(from.len() as int) =~= after);
    assert(before + (to + replaced(after, from, to)) =~= before + to + replaced(after, from, to));
}

/// A text in which the one to be replaced stands nowhere stays as it is.
pub proof fn law_nothing_else_is_replaced(s: Seq<char>, from: Seq<char>, to: Seq<char>)
    requires
        from.len() > 0,
        forall|i: int| 0 <= i < s.len() ==> !#[trigger] stands_at(s, from, i),
    ensures
        replaced(s, from, to) == s,
{
    let none = Seq::<char>::empty();
    assert(s + none =~= s);
    lemma_replaced_after(s, none, from, to);
}

// ── Numbers ────────────────────────────────────────────────────────────────

/// A number below ten is written as its digit, and any other as its tenth, rounded down, and then
/// the digit that is left.
pub proof fn law_numbers_are_written_digit_by_digit(n: nat)
    ensures
        n < 10 ==> decimal_text(n) == seq![(48 + n) as char],
        n >= 10 ==> decimal_text(n) == decimal_text(n / 10) + decimal_text(n % 10),
{
    if n >= 10 {
        assert(decimal_text(n % 10) == seq![digit_char(n % 10)]);
        assert(decimal_text(n / 10).push(digit_char(n % 10)) =~= decimal_text(n / 10)
            + decimal_text(n % 10));
    }
}

/// A number is read digit by digit: one more digit makes it ten times as large and adds the digit,
/// where the result is in range. The first digit may have a plus sign before it. What is no number,
/// and no beginning of one, is none with one more digit either.
pub proof fn law_numbers_are_read_digit_by_digit(s: Seq<char>, d: nat)
    requires
        d < 10,
    ensures
        ({
            let longer = s.push((48 + d) as char);
            if s.len() == 0 || s == seq!['+'] {
                parsed_usize(longer) == Some(d as usize)
            } else {
                match parsed_usize(s) {
                    Some(n) => if n * 10 + d <= usize::MAX {
                        parsed_usize(longer) == Some((n * 10 + d) as usize)
                    } else {
                        parsed_usize(longer) is None
                    },
                    None => parsed_usize(longer) is None,
                }
            }
        }),
{
    let c = (48 + d) as char;
    let longer = s.push(c);
    let digits = unsigned_part(s);
    assert(is_digit(c) && digit_value(c) == d);
    if s.len() == 0 {
        assert(longer[0] == c);
    } else {
        assert(longer[0] == s[0]);
    }
    assert(unsigned_part(longer) =~= digits.push(c));
    assert(digits.push(c).drop_last() =~= digits);
    assert(decimal_value(digits.push(c)) == decimal_value(digits) * 10 + d);
    if all_digits(digits) {
        assert(all_digits(digits.push(c)));
    } else {
        let i = choose|i: int| 0 <= i < digits.len() && !is_digit(#[trigger] digits[i]);
        assert(digits.push(c)[i] == digits[i]);
    }
    if digits.len() == 0 && s.len() > 0 {
        assert(s =~= seq!['+']);
    }
    if s == seq!['+'] {
        assert(s.len() == 1 && s[0] == '+');
    }
}

/// A text that is empty, or ends in anything but a digit, is no number.
pub proof fn law_numbers_end_in_a_digit(s: Seq<char>)
    requires
        s.len() == 0 || !(48 <= s.last() as u32 <= 57),
    ensures
        parsed_usize(s) is None,
{
    let digits = unsigned_part(s);
    if digits.len() > 0 {
        assert(digits.last() == s.last());
        assert(!is_digit(digits[digits.len() - 1]));
    }
}

} // verus!
