//! Slash-separated paths: the final component, the parent and the ancestors.
//!
//! A path is a root slash, or a leading `.`, or neither, and then components between slashes.
//! Repeated and trailing slashes and `.` components stand for nothing, so every ancestor of a path
//! is one of its prefixes and is known here by its length.

use crate::text::chars_of;
use vstd::prelude::*;
use vstd::string::StrSliceExecFns;

verus! {

/// The length of what comes before the components: the root slash or the leading `.`.
pub open spec fn lead_len(path: Seq<char>) -> nat {
    if path.len() > 0 && path[0] == '/' {
        1
    } else if path.len() > 0 && path[0] == '.' && (path.len() == 1 || path[1] == '/') {
        1
    } else {
        0
    }
}

/// Where the component that ends at `end` begins.
pub open spec fn name_start(path: Seq<char>, end: int) -> int
    decreases end,
{
    if end <= lead_len(path) || path[end - 1] == '/' {
        end
    } else {
        name_start(path, end - 1)
    }
}

/// The component that ends at `end`.
pub open spec fn name_before(path: Seq<char>, end: int) -> Seq<char> {
    path.subrange(name_start(path, end), end)
}

/// The end of what comes before the component that ends at `end`, its slash left out.
pub open spec fn cut_name(path: Seq<char>, end: int) -> int {
    if name_start(path, end) > lead_len(path) {
        name_start(path, end) - 1
    } else {
        lead_len(path) as int
    }
}

/// A component begins after what leads the path and no later than it ends.
pub proof fn lemma_name_start(path: Seq<char>, end: int)
    requires
        end > lead_len(path),
    ensures
        lead_len(path) <= name_start(path, end) <= end,
        lead_len(path) <= cut_name(path, end) < end,
    decreases end,
{
    reveal_with_fuel(name_start, 2);
    if path[end - 1] != '/' && end - 1 > lead_len(path) {
        lemma_name_start(path, end - 1);
    }
}

/// The end of the prefix of length `end` without the trailing slashes and `.` components.
pub open spec fn stripped_end(path: Seq<char>, end: int) -> int
    decreases end,
{
    if end <= lead_len(path) {
        end
    } else if name_before(path, end).len() == 0 || name_before(path, end) == seq!['.'] {
        proof {
            lemma_name_start(path, end);
        }
        stripped_end(path, cut_name(path, end))
    } else {
        end
    }
}

/// The final component of a path; `None` where it has none or ends in `..`.
pub open spec fn file_name_of(path: Seq<char>) -> Option<Seq<char>> {
    let end = stripped_end(path, path.len() as int);
    if end <= lead_len(path) || name_before(path, end) == seq!['.', '.'] {
        None
    } else {
        Some(name_before(path, end))
    }
}

/// The length of the parent of the prefix of length `end`: the prefix without its final component,
/// a leading `.` counting as one; `None` where nothing is left to take away.
pub open spec fn parent_end(path: Seq<char>, end: int) -> Option<int> {
    let last = stripped_end(path, end);
    if last > lead_len(path) {
        Some(stripped_end(path, cut_name(path, last)))
    } else if last == 1 && path[0] == '.' {
        Some(0)
    } else {
        None
    }
}

/// Stripping a prefix keeps it a prefix, and keeps what leads the path.
pub proof fn lemma_stripped_end(path: Seq<char>, end: int)
    ensures
        stripped_end(path, end) <= end,
        end <= lead_len(path) ==> stripped_end(path, end) == end,
        end >= lead_len(path) ==> stripped_end(path, end) >= lead_len(path),
    decreases end,
{
    if end > lead_len(path) {
        lemma_name_start(path, end);
        lemma_stripped_end(path, cut_name(path, end));
    }
}

/// A parent is strictly shorter.
pub proof fn lemma_parent_end(path: Seq<char>, end: int)
    requires
        0 <= end <= path.len(),
    ensures
        parent_end(path, end) matches Some(shorter) ==> 0 <= shorter < end,
{
    lemma_stripped_end(path, end);
    let last = stripped_end(path, end);
    if last > lead_len(path) {
        lemma_name_start(path, last);
        lemma_stripped_end(path, cut_name(path, last));
    }
}

/// The prefix of length `end` and its parents, the longest first.
pub open spec fn ancestors_from(path: Seq<char>, end: int) -> Seq<Seq<char>>
    decreases end,
{
    if 0 <= end <= path.len() {
        seq![path.take(end)] + match parent_end(path, end) {
            Some(shorter) => {
                proof {
                    lemma_parent_end(path, end);
                }
                ancestors_from(path, shorter)
            },
            None => Seq::empty(),
        }
    } else {
        Seq::empty()
    }
}

/// A path and its ancestors, the longest first.
pub open spec fn ancestors_of(path: Seq<char>) -> Seq<Seq<char>> {
    ancestors_from(path, path.len() as int)
}

/// The first of a path and its ancestors is the path.
pub proof fn lemma_ancestors_first(path: Seq<char>)
    ensures
        ancestors_of(path).len() > 0,
        ancestors_of(path)[0] == path,
{
    assert(path.take(path.len() as int) =~= path);
}

/// The name that a path gives: its final component, or `/` where it has none.
pub open spec fn basename_of(path: Seq<char>) -> Seq<char> {
    match file_name_of(path) {
        Some(name) => name,
        None => seq!['/'],
    }
}

/// `lead_len`, computed.
fn find_lead_len(path: &Vec<char>) -> (len: usize)
    ensures
        len == lead_len(path@),
{
    if path.len() > 0 && (path[0] == '/' || (path[0] == '.' && (path.len() == 1 || path[1]
        == '/'))) {
        1
    } else {
        0
    }
}

/// `name_start`, computed.
fn find_name_start(path: &Vec<char>, end: usize) -> (start: usize)
    requires
        lead_len(path@) <= end <= path.len(),
    ensures
        start == name_start(path@, end as int),
        lead_len(path@) <= start <= end,
{
    let lead = find_lead_len(path);
    let mut start: usize = end;
    while start > lead && path[start - 1] != '/'
        invariant
            lead == lead_len(path@),
            lead <= start <= end <= path.len(),
            name_start(path@, start as int) == name_start(path@, end as int),
        decreases start,
    {
        start = start - 1;
    }
    start
}

/// `cut_name`, computed.
fn find_cut(path: &Vec<char>, end: usize) -> (cut: usize)
    requires
        lead_len(path@) < end <= path.len(),
    ensures
        cut == cut_name(path@, end as int),
        cut < end,
{
    proof {
        lemma_name_start(path@, end as int);
    }
    let lead = find_lead_len(path);
    let start = find_name_start(path, end);
    if start > lead {
        start - 1
    } else {
        lead
    }
}

/// `stripped_end`, computed.
fn strip(path: &Vec<char>, end: usize) -> (stripped: usize)
    requires
        end <= path.len(),
    ensures
        stripped == stripped_end(path@, end as int),
        stripped <= end,
{
    let lead = find_lead_len(path);
    let mut last: usize = end;
    while last > lead
        invariant
            lead == lead_len(path@),
            last <= end <= path.len(),
            stripped_end(path@, last as int) == stripped_end(path@, end as int),
        decreases last,
    {
        let start = find_name_start(path, last);
        let ghost name = name_before(path@, last as int);
        if start == last {
            assert(name.len() == 0);
            last = find_cut(path, last);
        } else if start + 1 == last && path[start] == '.' {
            assert(name == seq!['.']);
            last = find_cut(path, last);
        } else {
            proof {
                assert(name.len() == last - start);
                assert(name[0] == path@[start as int]);
                if name == seq!['.'] {
                    assert(name.len() == 1);
                }
            }
            return last;
        }
    }
    last
}

/// `parent_end`, computed.
fn find_parent_end(path: &Vec<char>, end: usize) -> (parent: Option<usize>)
    requires
        end <= path.len(),
    ensures
        match parent {
            Some(shorter) => shorter < end && parent_end(path@, end as int) == Some(shorter as int),
            None => parent_end(path@, end as int) is None,
        },
{
    proof {
        lemma_parent_end(path@, end as int);
    }
    let lead = find_lead_len(path);
    let last = strip(path, end);
    if last > lead {
        Some(strip(path, find_cut(path, last)))
    } else if last == 1 && path[0] == '.' {
        Some(0)
    } else {
        None
    }
}

/// The text of each string of a list.
pub open spec fn texts(list: Seq<String>) -> Seq<Seq<char>> {
    list.map_values(|s: String| s@)
}

/// A path and its ancestors, the longest first.
pub fn ancestors(path: &str) -> (list: Vec<String>)
    ensures
        texts(list@) == ancestors_of(path@),
{
    let chars = chars_of(path);
    let mut list: Vec<String> = Vec::new();
    let mut end: usize = chars.len();
    let mut more = true;
    while more
        invariant
            chars@ == path@,
            end <= chars.len(),
            texts(list@) + (if more {
                ancestors_from(path@, end as int)
            } else {
                Seq::empty()
            }) == ancestors_of(path@),
        decreases
                end,
                (if more {
                    1int
                } else {
                    0int
                }),
    {
        let ghost before = texts(list@);
        list.push(path.substring_char(0, end).to_owned());
        assert(path@.subrange(0, end as int) == path@.take(end as int));
        assert(texts(list@) == before.push(path@.take(end as int)));
        match find_parent_end(&chars, end) {
            Some(shorter) => {
                proof {
                    let rest = ancestors_from(path@, shorter as int);
                    assert(before + (seq![path@.take(end as int)] + rest) == before.push(
                        path@.take(end as int),
                    ) + rest);
                }
                end = shorter;
            },
            None => {
                more = false;
            },
        }
    }
    list
}

/// The final component of a path, or `/` where it has none.
pub fn basename(path: &str) -> (name: String)
    ensures
        name@ == basename_of(path@),
{
    let chars = chars_of(path);
    let lead = find_lead_len(&chars);
    let end = strip(&chars, chars.len());
    proof {
        reveal_strlit("/");
    }
    if end <= lead {
        return "/".to_owned();
    }
    let start = find_name_start(&chars, end);
    let ghost name = name_before(path@, end as int);
    if end - start == 2 && chars[start] == '.' && chars[start + 1] == '.' {
        assert(name == seq!['.', '.']);
        "/".to_owned()
    } else {
        proof {
            if name == seq!['.', '.'] {
                assert(name[0] == '.' && name[1] == '.');
            }
        }
        path.substring_char(start, end).to_owned()
    }
}

} // verus!
