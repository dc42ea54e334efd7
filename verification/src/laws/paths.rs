//! Laws of paths and numbers as text.

use crate::paths::{
    ancestors_from, ancestors_of, basename_of, lead_len, lemma_ancestors_first, lemma_parent_end,
    name_before, name_start, parent_end, stripped_end,
};
use crate::text::{
    all_digits, decimal_text, decimal_value, digit_char, digit_value, is_digit, parsed_usize,
    unsigned_part,
};
use vstd::prelude::*;

verus! {

/// The prefixes that a path's ancestors are get shorter and shorter.
proof fn lemma_ancestors_from(path: Seq<char>, end: int)
    requires
        0 <= end <= path.len(),
    ensures
        forall|i: int|
            0 <= i < ancestors_from(path, end).len() ==> (#[trigger] ancestors_from(
                path,
                end,
            )[i]).len() <= end && ancestors_from(path, end)[i] == path.take(
                ancestors_from(path, end)[i].len() as int,
            ),
        forall|i: int, j: int|
            #![trigger ancestors_from(path, end)[i], ancestors_from(path, end)[j]]
            0 <= i < j < ancestors_from(path, end).len() ==> ancestors_from(path, end)[j].len()
                < ancestors_from(path, end)[i].len(),
    decreases end,
{
    lemma_parent_end(path, end);
    let all = ancestors_from(path, end);
    match parent_end(path, end) {
        Some(shorter) => {
            lemma_ancestors_from(path, shorter);
            let rest = ancestors_from(path, shorter);
            assert(all =~= seq![path.take(end)] + rest);
            assert forall|i: int| 0 <= i < all.len() implies (#[trigger] all[i]).len() <= end
                && all[i] == path.take(all[i].len() as int) by {
                if i > 0 {
                    assert(all[i] == rest[i - 1]);
                }
            }
            assert forall|i: int, j: int|
                #![trigger all[i], all[j]]
                0 <= i < j < all.len() implies all[j].len() < all[i].len() by {
                assert(all[j] == rest[j - 1]);
                if i > 0 {
                    assert(all[i] == rest[i - 1]);
                }
            }
        },
        None => {
            assert(all =~= seq![path.take(end)]);
        },
    }
}

/// A path is the first of its ancestors; each of them is a prefix of it, shorter than the one
/// before.
pub proof fn law_ancestors_are_ever_shorter_prefixes(path: Seq<char>)
    ensures
        ancestors_of(path).len() > 0,
        ancestors_of(path)[0] == path,
        forall|i: int|
            0 <= i < ancestors_of(path).len() ==> (#[trigger] ancestors_of(path)[i]).is_prefix_of(
                path,
            ),
        forall|i: int, j: int|
            #![trigger ancestors_of(path)[i], ancestors_of(path)[j]]
            0 <= i < j < ancestors_of(path).len() ==> ancestors_of(path)[j].len() < ancestors_of(
                path,
            )[i].len(),
{
    lemma_ancestors_first(path);
    lemma_ancestors_from(path, path.len() as int);
}

/// A plain component: text without slashes that is neither `.` nor `..`.
pub open spec fn is_plain_name(name: Seq<char>) -> bool {
    &&& name.len() > 0
    &&& !name.contains('/')
    &&& name != seq!['.']
    &&& name != seq!['.', '.']
}

/// The component that ends a path begins right after the slash before it.
pub proof fn lemma_name_start_after(path: Seq<char>, start: int, end: int)
    requires
        lead_len(path) <= start <= end <= path.len(),
        start == lead_len(path) || path[start - 1] == '/',
        forall|i: int| start <= i < end ==> path[i] != '/',
    ensures
        name_start(path, end) == start,
    decreases end - start,
{
    if end > start {
        lemma_name_start_after(path, start, end - 1);
    }
}

/// A directory is named after its final component.
pub proof fn law_basename_is_the_final_component(parent: Seq<char>, name: Seq<char>)
    requires
        is_plain_name(name),
    ensures
        basename_of(parent + seq!['/'] + name) == name,
{
    let path = parent + seq!['/'] + name;
    let start = parent.len() + 1;
    let end = path.len() as int;
    assert forall|i: int| start <= i < end implies path[i] != '/' by {
        assert(path[i] == name[i - start]);
        assert(name.contains(name[i - start]));
    }
    assert(path[start - 1] == '/');
    assert(lead_len(path) <= start);
    lemma_name_start_after(path, start as int, end);
    assert(name_before(path, end) =~= name);
}

/// The root directory is named `/`.
pub proof fn law_basename_of_the_root()
    ensures
        basename_of(seq!['/']) == seq!['/'],
{
    let path = seq!['/'];
    assert(stripped_end(path, 1) == 1);
}

/// The value of a decimal text is the number.
pub proof fn lemma_decimal_round_trip(n: nat)
    ensures
        decimal_text(n).len() > 0,
        all_digits(decimal_text(n)),
        decimal_value(decimal_text(n)) == n,
    decreases n,
{
    let text = decimal_text(n);
    let last = digit_char(n % 10);
    assert(is_digit(last) && digit_value(last) == n % 10);
    if n >= 10 {
        lemma_decimal_round_trip(n / 10);
        let rest = decimal_text(n / 10);
        assert(text =~= rest.push(last));
        assert(text.drop_last() =~= rest);
        assert forall|i: int| 0 <= i < text.len() implies is_digit(#[trigger] text[i]) by {
            if i < rest.len() {
                assert(is_digit(rest[i]));
            }
        }
    } else {
        assert(text =~= seq![last]);
        assert(text.drop_last() =~= Seq::<char>::empty());
        reveal_with_fuel(decimal_value, 2);
    }
}

/// A number written in decimal reads back as the number.
pub proof fn law_numbers_read_back(n: usize)
    ensures
        parsed_usize(decimal_text(n as nat)) == Some(n),
{
    lemma_decimal_round_trip(n as nat);
    let text = decimal_text(n as nat);
    assert(is_digit(text[0]));
    assert(unsigned_part(text) == text);
}

} // verus!
