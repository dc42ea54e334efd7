//! Laws of paths, from component to component: the name and the ancestors of a path, and what it is
//! made of, are given by those of the path before its last slash.

use crate::laws::paths::lemma_name_start_after;
use crate::parts::{is_component, lemma_pieces, parts_of, pieces_of};
use crate::paths::{
    ancestors_from, ancestors_of, basename_of, cut_name, lead_len, lemma_name_start,
    lemma_parent_end, lemma_stripped_end, name_before, name_start, parent_end, stripped_end,
};
use vstd::prelude::*;

verus! {

// ── Names ──────────────────────────────────────────────────────────────────

/// Whether a piece of a path stands for nothing: it is empty, or a single dot.
pub open spec fn is_idle(piece: Seq<char>) -> bool {
    piece.len() == 0 || piece == seq!['.']
}

/// A piece behind a path.
pub open spec fn under(parent: Seq<char>, piece: Seq<char>) -> Seq<char> {
    parent + seq!['/'] + piece
}

/// What is found in a path from the left is found in every path that begins with it and is led by
/// the same.
proof fn lemma_same_prefix(path: Seq<char>, short: Seq<char>, end: int)
    requires
        0 <= end <= short.len() <= path.len(),
        path.take(short.len() as int) == short,
        lead_len(path) == lead_len(short),
    ensures
        name_start(path, end) == name_start(short, end),
        name_before(path, end) == name_before(short, end),
        cut_name(path, end) == cut_name(short, end),
        stripped_end(path, end) == stripped_end(short, end),
        parent_end(path, end) == parent_end(short, end),
        ancestors_from(path, end) == ancestors_from(short, end),
        path.take(end) == short.take(end),
    decreases end,
{
    assert(forall|i: int| 0 <= i < short.len() ==> path.take(short.len() as int)[i] == path[i]);
    assert(path.take(end) =~= short.take(end));
    if end > lead_len(path) {
        lemma_same_prefix(path, short, end - 1);
        lemma_name_start(path, end);
        lemma_name_start(short, end);
        assert(name_before(path, end) =~= name_before(short, end));
        lemma_same_prefix(path, short, cut_name(path, end));
    }
    lemma_stripped_end(path, end);
    let last = stripped_end(path, end);
    if last > lead_len(path) {
        lemma_name_start(path, last);
        if last < end {
            lemma_same_prefix(path, short, last);
        }
        lemma_same_prefix(path, short, cut_name(path, last));
    }
    lemma_parent_end(path, end);
    match parent_end(path, end) {
        Some(shorter) => lemma_same_prefix(path, short, shorter),
        None => {},
    }
}

/// A path and one that goes on behind it are led by the same.
proof fn lemma_lead(parent: Seq<char>, piece: Seq<char>)
    ensures
        parent.len() > 0 ==> lead_len(under(parent, piece)) == lead_len(parent),
        parent.len() == 0 ==> lead_len(under(parent, piece)) == 1,
        lead_len(parent) <= parent.len(),
        under(parent, piece).len() == parent.len() + 1 + piece.len(),
        under(parent, piece).take(parent.len() as int) == parent,
{
    let path = under(parent, piece);
    assert(path[parent.len() as int] == '/');
    assert(path.take(parent.len() as int) =~= parent);
    if parent.len() > 0 {
        assert(path[0] == parent[0]);
        if parent.len() > 1 {
            assert(path[1] == parent[1]);
        }
    }
}

/// The last piece of a path is the component that ends it.
proof fn lemma_last_piece(parent: Seq<char>, piece: Seq<char>)
    requires
        !piece.contains('/'),
    ensures
        name_start(under(parent, piece), under(parent, piece).len() as int) == parent.len() + 1,
        name_before(under(parent, piece), under(parent, piece).len() as int) == piece,
        cut_name(under(parent, piece), under(parent, piece).len() as int) == if parent.len() == 0 {
            1int
        } else {
            parent.len() as int
        },
{
    let path = under(parent, piece);
    let start = parent.len() + 1;
    let end = path.len() as int;
    lemma_lead(parent, piece);
    assert forall|i: int| start <= i < end implies path[i] != '/' by {
        assert(path[i] == piece[i - start]);
        assert(piece.contains(piece[i - start]));
    }
    assert(path[start - 1] == '/');
    lemma_name_start_after(path, start as int, end);
    assert(name_before(path, end) =~= piece);
}

/// A last piece that stands for nothing is stripped.
proof fn lemma_strip_idle(parent: Seq<char>, piece: Seq<char>)
    requires
        is_idle(piece),
        !piece.contains('/'),
    ensures
        ({
            let path = under(parent, piece);
            stripped_end(path, path.len() as int) == if parent.len() == 0 {
                1int
            } else {
                stripped_end(parent, parent.len() as int)
            }
        }),
{
    let path = under(parent, piece);
    lemma_lead(parent, piece);
    lemma_last_piece(parent, piece);
    reveal_with_fuel(stripped_end, 2);
    if parent.len() > 0 {
        lemma_same_prefix(path, parent, parent.len() as int);
    }
}

/// The name of a path is its last piece. Where that stands for nothing, it is the name of what comes
/// before; where it is `..`, there is none, and `/` stands for it.
pub proof fn law_last_piece_is_the_name(parent: Seq<char>, piece: Seq<char>)
    requires
        !piece.contains('/'),
    ensures
        basename_of(under(parent, piece)) == if is_idle(piece) {
            basename_of(parent)
        } else if piece == seq!['.', '.'] {
            seq!['/']
        } else {
            piece
        },
{
    let path = under(parent, piece);
    lemma_lead(parent, piece);
    lemma_last_piece(parent, piece);
    if is_idle(piece) {
        lemma_strip_idle(parent, piece);
        if parent.len() > 0 {
            lemma_stripped_end(parent, parent.len() as int);
            lemma_same_prefix(path, parent, stripped_end(parent, parent.len() as int));
        }
    }
}

/// A path of a single piece is named by it, or `/` where it is empty or made of dots alone, one or
/// two.
pub proof fn law_single_piece_is_the_name(piece: Seq<char>)
    requires
        !piece.contains('/'),
    ensures
        basename_of(piece) == if is_idle(piece) || piece == seq!['.', '.'] {
            seq!['/']
        } else {
            piece
        },
{
    lemma_single_piece(piece);
}

proof fn lemma_single_piece(piece: Seq<char>)
    requires
        !piece.contains('/'),
    ensures
        lead_len(piece) == if piece == seq!['.'] {
            1nat
        } else {
            0
        },
        !is_idle(piece) ==> name_start(piece, piece.len() as int) == 0 && name_before(
            piece,
            piece.len() as int,
        ) == piece,
{
    assert forall|i: int| 0 <= i < piece.len() implies piece[i] != '/' by {
        assert(piece.contains(piece[i]));
    }
    if piece.len() == 1 && piece[0] == '.' {
        assert(piece =~= seq!['.']);
    }
    if piece == seq!['.'] {
        assert(piece.len() == 1 && piece[0] == '.');
    }
    if !is_idle(piece) {
        lemma_name_start_after(piece, 0, piece.len() as int);
        assert(name_before(piece, piece.len() as int) =~= piece);
    }
}

// ── Ancestors ──────────────────────────────────────────────────────────────

/// Whether a path ends in a piece that stands for something: neither in a slash nor in a dot behind
/// one.
pub open spec fn ends_bare(path: Seq<char>) -> bool {
    &&& path.len() > 0
    &&& path.last() != '/'
    &&& path.len() > 1 && path.last() == '.' ==> path[path.len() - 2] != '/'
}

proof fn lemma_ends_bare(path: Seq<char>)
    requires
        ends_bare(path),
    ensures
        stripped_end(path, path.len() as int) == path.len(),
{
    let end = path.len() as int;
    if end > lead_len(path) {
        lemma_name_start(path, end);
        lemma_start_is_after_slash(path, end);
        let start = name_start(path, end);
        let name = name_before(path, end);
        assert(start < end) by {
            if start == end {
                assert(path[end - 1] == '/');
            }
        }
        if name == seq!['.'] {
            assert(name.len() == 1 && name[0] == path[start]);
            assert(start == end - 1);
        }
    }
}

proof fn lemma_start_is_after_slash(path: Seq<char>, end: int)
    requires
        lead_len(path) <= end <= path.len(),
    ensures
        name_start(path, end) == lead_len(path) || path[name_start(path, end) - 1] == '/',
    decreases end,
{
    if end > lead_len(path) && path[end - 1] != '/' {
        lemma_start_is_after_slash(path, end - 1);
    }
}

/// A path of a single piece lies under the empty path alone, which lies under nothing.
pub proof fn law_ancestors_of_a_single_piece(piece: Seq<char>)
    requires
        !piece.contains('/'),
    ensures
        ancestors_of(piece) == if piece.len() == 0 {
            seq![piece]
        } else {
            seq![piece, Seq::empty()]
        },
{
    let end = piece.len() as int;
    let none = Seq::<char>::empty();
    lemma_single_piece(piece);
    assert(piece.take(end) =~= piece);
    assert(piece.take(0) =~= none);
    assert(stripped_end(piece, 0) == 0);
    assert(ancestors_from(piece, 0) =~= seq![none]);
    if piece.len() > 0 {
        assert(stripped_end(piece, end) == end);
        assert(parent_end(piece, end) == Some(0int));
        assert(ancestors_of(piece) =~= seq![piece, none]);
    } else {
        assert(piece =~= none);
    }
}

/// A last piece that stands for nothing leaves the ancestors as they are.
pub proof fn law_ancestors_behind_an_idle_piece(parent: Seq<char>, piece: Seq<char>)
    requires
        !piece.contains('/'),
        is_idle(piece),
    ensures
        ancestors_of(under(parent, piece)) == seq![under(parent, piece)] + ancestors_of(
            parent,
        ).skip(1),
{
    let path = under(parent, piece);
    let end = path.len() as int;
    lemma_lead(parent, piece);
    lemma_strip_idle(parent, piece);
    assert(path.take(end) =~= path);
    assert(path[0] == if parent.len() == 0 {
        '/'
    } else {
        parent[0]
    });
    if parent.len() > 0 {
        let inner = parent.len() as int;
        let last = stripped_end(parent, inner);
        lemma_stripped_end(parent, inner);
        lemma_same_prefix(path, parent, inner);
        lemma_same_prefix(path, parent, last);
        if last > lead_len(parent) {
            lemma_name_start(parent, last);
            lemma_same_prefix(path, parent, cut_name(parent, last));
        }
        assert(parent_end(path, end) == parent_end(parent, inner));
        lemma_parent_end(parent, inner);
        match parent_end(parent, inner) {
            Some(shorter) => {
                lemma_same_prefix(path, parent, shorter);
                assert(ancestors_of(parent).skip(1) =~= ancestors_from(parent, shorter));
            },
            None => {
                assert(ancestors_of(parent).skip(1) =~= Seq::empty());
            },
        }
    } else {
        assert(parent_end(path, end) is None);
        assert(ancestors_of(parent).skip(1) =~= Seq::empty());
    }
}

/// The parent of a path whose last piece stands for something.
proof fn lemma_parent(parent: Seq<char>, piece: Seq<char>)
    requires
        !piece.contains('/'),
        !is_idle(piece),
    ensures
        ({
            let path = under(parent, piece);
            let last = stripped_end(parent, parent.len() as int);
            ancestors_of(path) == seq![path] + if parent.len() == 0 {
                seq![seq!['/']]
            } else {
                ancestors_from(parent, last)
            }
        }),
{
    let path = under(parent, piece);
    let end = path.len() as int;
    lemma_lead(parent, piece);
    lemma_last_piece(parent, piece);
    assert(path.take(end) =~= path);
    assert(stripped_end(path, end) == end);
    if parent.len() > 0 {
        let inner = parent.len() as int;
        lemma_same_prefix(path, parent, inner);
        lemma_stripped_end(parent, inner);
        lemma_same_prefix(path, parent, stripped_end(parent, inner));
    } else {
        assert(path[0] == '/');
        assert(path.take(1) =~= seq!['/']);
        assert(stripped_end(path, 1) == 1);
        assert(ancestors_from(path, 1) =~= seq![seq!['/']]);
    }
}

/// A path whose last piece stands for something lies under what comes before it, and under what that
/// lies under; behind the root slash, under the root alone. Pieces in between that stand for nothing
/// make no difference to the ancestors.
pub proof fn law_ancestors_behind_a_component(parent: Seq<char>, piece: Seq<char>, idle: Seq<char>)
    requires
        !piece.contains('/'),
        !is_idle(piece),
        is_idle(idle),
    ensures
        parent.len() == 0 ==> ancestors_of(under(parent, piece)) == seq![
            under(parent, piece),
            seq!['/'],
        ],
        ends_bare(parent) ==> ancestors_of(under(parent, piece)) == seq![under(parent, piece)]
            + ancestors_of(parent),
        ancestors_of(under(under(parent, idle), piece)) == seq![
            under(under(parent, idle), piece),
        ] + ancestors_of(under(parent, piece)).skip(1),
{
    let path = under(parent, piece);
    let middle = under(parent, idle);
    lemma_parent(parent, piece);
    if parent.len() == 0 {
        assert(ancestors_of(path) =~= seq![path, seq!['/']]);
    }
    if ends_bare(parent) {
        lemma_ends_bare(parent);
    }
    assert(!idle.contains('/')) by {
        if idle.contains('/') {
            let i = choose|i: int| 0 <= i < idle.len() && idle[i] == '/';
            assert(idle[i] == '.');
        }
    }
    lemma_lead(parent, idle);
    lemma_parent(middle, piece);
    lemma_strip_idle(parent, idle);
    if parent.len() == 0 {
        assert(middle[0] == '/');
        assert(middle.take(1) =~= seq!['/']);
        assert(stripped_end(middle, 1) == 1);
        assert(ancestors_from(middle, 1) =~= seq![seq!['/']]);
        assert(ancestors_of(path).skip(1) =~= seq![seq!['/']]);
    } else {
        let last = stripped_end(parent, parent.len() as int);
        lemma_stripped_end(parent, parent.len() as int);
        lemma_same_prefix(middle, parent, last);
        assert(ancestors_of(path).skip(1) =~= ancestors_from(parent, last));
    }
}

// ── Parts ──────────────────────────────────────────────────────────────────

proof fn lemma_pieces_under(parent: Seq<u8>, piece: Seq<u8>)
    requires
        !piece.contains(47u8),
    ensures
        pieces_of(parent + seq![47u8] + piece) == pieces_of(parent).push(piece),
        pieces_of(parent).len() > 0,
    decreases piece.len(),
{
    let raw = parent + seq![47u8] + piece;
    lemma_pieces(parent);
    if piece.len() == 0 {
        assert(raw.drop_last() =~= parent);
        assert(piece =~= Seq::empty());
    } else {
        let shorter = piece.drop_last();
        assert forall|i: int| 0 <= i < shorter.len() implies shorter[i] != 47u8 by {
            assert(piece.contains(piece[i]));
        }
        assert(piece.contains(piece[piece.len() - 1]));
        lemma_pieces_under(parent, shorter);
        assert(raw.drop_last() =~= parent + seq![47u8] + shorter);
        assert(raw.last() == piece.last());
        let rest = pieces_of(parent).push(shorter);
        assert(rest.drop_last() =~= pieces_of(parent));
        assert(shorter.push(piece.last()) =~= piece);
    }
}

proof fn lemma_single_raw(piece: Seq<u8>)
    requires
        !piece.contains(47u8),
    ensures
        pieces_of(piece) == seq![piece],
    decreases piece.len(),
{
    if piece.len() > 0 {
        let shorter = piece.drop_last();
        assert forall|i: int| 0 <= i < shorter.len() implies shorter[i] != 47u8 by {
            assert(piece.contains(piece[i]));
        }
        assert(piece.contains(piece[piece.len() - 1]));
        lemma_single_raw(shorter);
        assert(seq![shorter].drop_last() =~= Seq::empty());
        assert(shorter.push(piece.last()) =~= piece);
        assert(pieces_of(piece) =~= seq![piece]);
    } else {
        assert(piece =~= Seq::empty());
    }
}

/// A piece behind a path is one more component of it, or none where it is empty or a single dot. The
/// path begins as before; behind nothing, it begins at the root.
pub proof fn law_parts_behind_a_slash(parent: Seq<u8>, piece: Seq<u8>)
    requires
        !piece.contains(47u8),
    ensures
        ({
            let before = parts_of(parent);
            let after = parts_of(parent + seq![47u8] + piece);
            &&& after.rooted == (before.rooted || parent.len() == 0)
            &&& after.here == before.here
            &&& after.components == if piece.len() == 0 || piece == seq![46u8] {
                before.components
            } else {
                before.components.push(piece)
            }
        }),
{
    let raw = parent + seq![47u8] + piece;
    lemma_pieces_under(parent, piece);
    assert(raw[0] == if parent.len() == 0 {
        47u8
    } else {
        parent[0]
    });
    reveal(Seq::filter);
    assert(pieces_of(raw).drop_last() =~= pieces_of(parent));
    assert(pieces_of(raw)[0] == pieces_of(parent)[0]);
}

/// A path of a single piece has it as its component, or none where it is empty or a single dot; it
/// does not begin at the root, and begins with a dot in the last case alone.
pub proof fn law_parts_of_a_single_piece(piece: Seq<u8>)
    requires
        !piece.contains(47u8),
    ensures
        ({
            let parts = parts_of(piece);
            &&& !parts.rooted
            &&& parts.here == (piece == seq![46u8])
            &&& parts.components == if piece.len() == 0 || piece == seq![46u8] {
                Seq::empty()
            } else {
                seq![piece]
            }
        }),
{
    lemma_single_raw(piece);
    if piece.len() > 0 {
        assert(piece.contains(piece[0]));
    }
    reveal(Seq::filter);
    let pieces = seq![piece];
    assert(pieces.drop_last() =~= Seq::empty());
    assert(pieces.drop_last().filter(is_component()) =~= Seq::empty());
    assert(Seq::<Seq<u8>>::empty().push(piece) =~= seq![piece]);
}

} // verus!
