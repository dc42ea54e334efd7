//! Text primitives over the characters of a string: comparison, trimming, replacement and
//! decimal numbers.

use vstd::prelude::*;
use vstd::string::StrSliceExecFns;
use vstd::string::StringExecFns;

verus! {

/// The characters of `s`, in order.
pub fn chars_of(s: &str) -> (chars: Vec<char>)
    ensures
        chars@ == s@,
{
    let mut chars: Vec<char> = Vec::new();
    for c in it: s.chars()
        invariant
            it.seq() == s@,
            chars@ == s@.take(it.index()),
    {
        chars.push(c);
    }
    chars
}

/// Whether two strings hold the same text.
pub fn same_text(a: &str, b: &str) -> (same: bool)
    ensures
        same == (a@ == b@),
{
    let xs = chars_of(a);
    let mut i: usize = 0;
    for c in it: b.chars()
        invariant
            it.seq() == b@,
            xs@ == a@,
            i == it.index(),
            i <= xs.len(),
            a@.take(i as int) == b@.take(i as int),
    {
        if i >= xs.len() || xs[i] != c {
            proof {
                if a@ == b@ {
                    assert(a@[i as int] == b@[i as int]);
                }
            }
            return false;
        }
        i = i + 1;
    }
    proof {
        assert(b@.take(b@.len() as int) == b@);
        if i == xs.len() {
            assert(a@.take(a@.len() as int) == a@);
        }
    }
    i == xs.len()
}

/// Whether `part` occurs in `s` at position `at`.
pub open spec fn occurs_at(s: Seq<char>, part: Seq<char>, at: int) -> bool {
    &&& at + part.len() <= s.len()
    &&& s.subrange(at, at + part.len()) == part
}

/// `occurs_at`, computed.
pub fn has_part_at(s: &Vec<char>, part: &Vec<char>, at: usize) -> (found: bool)
    requires
        at <= s.len(),
    ensures
        found == occurs_at(s@, part@, at as int),
{
    if part.len() > s.len() - at {
        return false;
    }
    let mut i: usize = 0;
    while i < part.len()
        invariant
            at + part.len() <= s.len(),
            i <= part.len(),
            forall|k: int| 0 <= k < i ==> s@[at + k] == #[trigger] part@[k],
        decreases part.len() - i,
    {
        if s[at + i] != part[i] {
            assert(s@.subrange(at as int, at + part.len())[i as int] != part@[i as int]);
            return false;
        }
        i = i + 1;
    }
    assert(s@.subrange(at as int, at + part.len()) == part@);
    true
}

// ── Replacement ────────────────────────────────────────────────────────────

/// `s` with every occurrence of `from`, taken left to right without overlap, replaced by `to`.
pub open spec fn replaced(s: Seq<char>, from: Seq<char>, to: Seq<char>) -> Seq<char>
    decreases s.len(),
{
    if s.len() == 0 || from.len() == 0 {
        s
    } else if occurs_at(s, from, 0) {
        to + replaced(s.skip(from.len() as int), from, to)
    } else {
        seq![s[0]] + replaced(s.skip(1), from, to)
    }
}

/// Replaces every occurrence of `from` in `s`, left to right, by `to`.
pub fn replace_all(s: &str, from: &str, to: &str) -> (result: String)
    requires
        from@.len() > 0,
    ensures
        result@ == replaced(s@, from@, to@),
{
    let chars = chars_of(s);
    let pattern = chars_of(from);
    let mut out = String::new();
    let mut copied: usize = 0;
    let mut i: usize = 0;
    proof {
        assert(s@.skip(0) == s@);
        assert(s@.subrange(0, 0) == Seq::<char>::empty());
        assert(out@ + s@.subrange(0, 0) + replaced(s@.skip(0), from@, to@) == replaced(
            s@,
            from@,
            to@,
        ));
    }
    while i < chars.len()
        invariant
            chars@ == s@,
            pattern@ == from@,
            from@.len() > 0,
            copied <= i <= chars.len(),
            out@ + s@.subrange(copied as int, i as int) + replaced(s@.skip(i as int), from@, to@)
                == replaced(s@, from@, to@),
        decreases chars.len() - i,
    {
        let ghost rest = s@.skip(i as int);
        if has_part_at(&chars, &pattern, i) {
            let ghost before = out@;
            let ghost start = copied;
            let ghost at = i;
            proof {
                assert(rest.subrange(0, from@.len() as int) == s@.subrange(
                    i as int,
                    i + from@.len(),
                ));
                assert(rest.skip(from@.len() as int) == s@.skip(i + from@.len()));
            }
            out.append(s.substring_char(copied, i));
            out.append(to);
            i = i + pattern.len();
            copied = i;
            proof {
                let tail = replaced(s@.skip(i as int), from@, to@);
                let kept = s@.subrange(start as int, at as int);
                assert(s@.subrange(i as int, i as int) == Seq::<char>::empty());
                assert(out@ == before + kept + to@);
                assert(out@ + Seq::<char>::empty() + tail == before + kept + (to@ + tail));
            }
        } else {
            proof {
                assert(rest.skip(1) == s@.skip(i + 1));
                assert(!occurs_at(rest, from@, 0)) by {
                    if occurs_at(rest, from@, 0) {
                        assert(rest.subrange(0, from@.len() as int) == s@.subrange(
                            i as int,
                            i + from@.len(),
                        ));
                    }
                }
                let tail = replaced(s@.skip(i + 1), from@, to@);
                assert(s@.subrange(copied as int, i + 1) == s@.subrange(copied as int, i as int)
                    + seq![s@[i as int]]);
                assert(out@ + s@.subrange(copied as int, i as int) + (seq![rest[0]] + tail) == out@
                    + s@.subrange(copied as int, i + 1) + tail);
            }
            i = i + 1;
        }
    }
    out.append(s.substring_char(copied, i));
    proof {
        assert(s@.skip(i as int) == Seq::<char>::empty());
        assert(out@ + Seq::<char>::empty() == out@);
    }
    out
}

// ── Trimming ───────────────────────────────────────────────────────────────

/// The characters with the Unicode `White_Space` property.
pub open spec fn is_white_space(c: char) -> bool {
    ||| '\u{9}' <= c <= '\u{d}'
    ||| c == '\u{20}'
    ||| c == '\u{85}'
    ||| c == '\u{a0}'
    ||| c == '\u{1680}'
    ||| '\u{2000}' <= c <= '\u{200a}'
    ||| c == '\u{2028}'
    ||| c == '\u{2029}'
    ||| c == '\u{202f}'
    ||| c == '\u{205f}'
    ||| c == '\u{3000}'
}

/// `is_white_space`, computed.
pub fn white_space(c: char) -> (white: bool)
    ensures
        white == is_white_space(c),
{
    ('\u{9}' <= c && c <= '\u{d}') || c == '\u{20}' || c == '\u{85}' || c == '\u{a0}' || c
        == '\u{1680}' || ('\u{2000}' <= c && c <= '\u{200a}') || c == '\u{2028}' || c == '\u{2029}'
        || c == '\u{202f}' || c == '\u{205f}' || c == '\u{3000}'
}

/// `s` without its leading white space.
pub open spec fn trimmed_start(s: Seq<char>) -> Seq<char>
    decreases s.len(),
{
    if s.len() > 0 && is_white_space(s[0]) {
        trimmed_start(s.skip(1))
    } else {
        s
    }
}

/// `s` without its trailing white space.
pub open spec fn trimmed_end(s: Seq<char>) -> Seq<char>
    decreases s.len(),
{
    if s.len() > 0 && is_white_space(s.last()) {
        trimmed_end(s.drop_last())
    } else {
        s
    }
}

/// `s` without its leading and trailing white space.
pub open spec fn trimmed(s: Seq<char>) -> Seq<char> {
    trimmed_end(trimmed_start(s))
}

/// The part of `s` that is left without leading and trailing white space.
pub fn trim(s: &str) -> (result: &str)
    ensures
        result@ == trimmed(s@),
{
    let chars = chars_of(s);
    let mut start: usize = 0;
    assert(s@.skip(0) == s@);
    while start < chars.len() && white_space(chars[start])
        invariant
            chars@ == s@,
            start <= chars.len(),
            trimmed_start(s@.skip(start as int)) == trimmed_start(s@),
        decreases chars.len() - start,
    {
        assert(s@.skip(start as int).skip(1) == s@.skip(start + 1));
        start = start + 1;
    }
    let mut end: usize = chars.len();
    assert(s@.subrange(start as int, end as int) == s@.skip(start as int));
    while end > start && white_space(chars[end - 1])
        invariant
            chars@ == s@,
            start <= end <= chars.len(),
            trimmed_end(s@.subrange(start as int, end as int)) == trimmed(s@),
        decreases end,
    {
        assert(s@.subrange(start as int, end as int).drop_last() == s@.subrange(
            start as int,
            end - 1,
        ));
        end = end - 1;
    }
    s.substring_char(start, end)
}

// ── Decimal numbers ────────────────────────────────────────────────────────

/// An ASCII decimal digit.
pub open spec fn is_digit(c: char) -> bool {
    '0' <= c <= '9'
}

/// The number that a digit stands for.
pub open spec fn digit_value(c: char) -> nat {
    (c as int - '0' as int) as nat
}

/// The digit that stands for a number below ten.
pub open spec fn digit_char(d: nat) -> char {
    ('0' as int + d) as char
}

/// The number that a sequence of digits stands for.
pub open spec fn decimal_value(digits: Seq<char>) -> nat
    decreases digits.len(),
{
    if digits.len() == 0 {
        0
    } else {
        decimal_value(digits.drop_last()) * 10 + digit_value(digits.last())
    }
}

/// The decimal notation of a number, without leading zeros.
pub open spec fn decimal_text(n: nat) -> Seq<char>
    decreases n,
{
    if n < 10 {
        seq![digit_char(n)]
    } else {
        decimal_text(n / 10).push(digit_char(n % 10))
    }
}

/// Digits only.
pub open spec fn all_digits(s: Seq<char>) -> bool {
    forall|i: int| 0 <= i < s.len() ==> is_digit(#[trigger] s[i])
}

/// `s` without one leading plus sign.
pub open spec fn unsigned_part(s: Seq<char>) -> Seq<char> {
    if s.len() > 0 && s[0] == '+' {
        s.skip(1)
    } else {
        s
    }
}

/// The number that a text stands for: an optional plus sign and then digits only, at least one,
/// with a value in range.
pub open spec fn parsed_usize(s: Seq<char>) -> Option<usize> {
    let digits = unsigned_part(s);
    if digits.len() > 0 && all_digits(digits) && decimal_value(digits) <= usize::MAX {
        Some(decimal_value(digits) as usize)
    } else {
        None
    }
}

/// A longer sequence of digits stands for no smaller a number.
proof fn lemma_decimal_value_monotone(digits: Seq<char>, n: int)
    requires
        0 <= n <= digits.len(),
    ensures
        decimal_value(digits.take(n)) <= decimal_value(digits),
    decreases digits.len() - n,
{
    if n == digits.len() {
        assert(digits.take(n) == digits);
    } else {
        lemma_decimal_value_monotone(digits, n + 1);
        assert(digits.take(n + 1).drop_last() == digits.take(n));
    }
}

/// Reads an unsigned number; `None` where the text is not one or is out of range.
pub fn parse_usize(s: &str) -> (result: Option<usize>)
    ensures
        result == parsed_usize(s@),
{
    let chars = chars_of(s);
    let start: usize = if chars.len() > 0 && chars[0] == '+' {
        1
    } else {
        0
    };
    let ghost digits = s@.skip(start as int);
    proof {
        assert(s@.skip(0) == s@);
        assert(digits.take(0) == Seq::<char>::empty());
    }
    if start == chars.len() {
        return None;
    }
    let mut value: usize = 0;
    let mut i: usize = start;
    while i < chars.len()
        invariant
            chars@ == s@,
            start <= i <= chars.len(),
            digits == s@.skip(start as int),
            digits == unsigned_part(s@),
            forall|k: int| 0 <= k < i - start ==> is_digit(#[trigger] digits[k]),
            value == decimal_value(digits.take(i - start)),
        decreases chars.len() - i,
    {
        let c = chars[i];
        proof {
            assert(digits[i - start] == c);
            assert(digits.take(i - start + 1).drop_last() == digits.take(i - start));
            lemma_decimal_value_monotone(digits, i - start + 1);
        }
        if !('0' <= c && c <= '9') {
            return None;
        }
        let d: usize = (c as u32 - '0' as u32) as usize;
        if value > (usize::MAX - d) / 10 {
            return None;
        }
        value = value * 10 + d;
        i = i + 1;
    }
    assert(digits.take(digits.len() as int) == digits);
    Some(value)
}

/// The notation of a single digit.
fn digit_text(d: usize) -> (text: &'static str)
    requires
        d < 10,
    ensures
        text@ == seq![digit_char(d as nat)],
{
    proof {
        reveal_strlit("0");
        reveal_strlit("1");
        reveal_strlit("2");
        reveal_strlit("3");
        reveal_strlit("4");
        reveal_strlit("5");
        reveal_strlit("6");
        reveal_strlit("7");
        reveal_strlit("8");
        reveal_strlit("9");
    }
    match d {
        0 => "0",
        1 => "1",
        2 => "2",
        3 => "3",
        4 => "4",
        5 => "5",
        6 => "6",
        7 => "7",
        8 => "8",
        _ => "9",
    }
}

/// Writes a number in decimal.
pub fn decimal(n: usize) -> (text: String)
    ensures
        text@ == decimal_text(n as nat),
    decreases n,
{
    if n < 10 {
        digit_text(n).to_owned()
    } else {
        let mut text = decimal(n / 10);
        text.append(digit_text(n % 10));
        assert(text@ == decimal_text((n / 10) as nat).push(digit_char((n % 10) as nat)));
        text
    }
}

} // verus!
