//! Paths as bytes: what they are made of, and when two are the same.

use crate::lists::lemma_filter_step;
use vstd::prelude::*;

verus! {

/// What stands between the components of a path.
pub const SLASH: u8 = 0x2f;

/// The component that stands for where one is.
pub const DOT: u8 = 0x2e;

/// The pieces between the slashes of a path, empty ones among them.
pub open spec fn pieces_of(raw: Seq<u8>) -> Seq<Seq<u8>>
    decreases raw.len(),
{
    if raw.len() == 0 {
        seq![Seq::empty()]
    } else {
        let rest = pieces_of(raw.drop_last());
        if raw.last() == SLASH {
            rest.push(Seq::empty())
        } else {
            rest.drop_last().push(rest.last().push(raw.last()))
        }
    }
}

/// Pieces that stand for something: neither nothing nor `.`.
pub open spec fn is_component() -> spec_fn(Seq<u8>) -> bool {
    |piece: Seq<u8>| piece.len() > 0 && piece != seq![DOT]
}

/// What two paths that are the same have in common.
pub struct PathParts {
    /// It begins at the root.
    pub rooted: bool,
    /// It begins with a `.`.
    pub here: bool,
    /// The components. Repeated and trailing slashes and further `.` stand for nothing.
    pub components: Seq<Seq<u8>>,
}

/// The parts of a path.
pub open spec fn parts_of(raw: Seq<u8>) -> PathParts {
    PathParts {
        rooted: raw.len() > 0 && raw[0] == SLASH,
        here: pieces_of(raw)[0] == seq![DOT],
        components: pieces_of(raw).filter(is_component()),
    }
}

/// The bytes of each piece.
spec fn bytes_of(list: Seq<Vec<u8>>) -> Seq<Seq<u8>> {
    list.map_values(|piece: Vec<u8>| piece@)
}

/// A path has a piece before its first slash.
pub proof fn lemma_pieces(raw: Seq<u8>)
    ensures
        pieces_of(raw).len() > 0,
    decreases raw.len(),
{
    if raw.len() > 0 {
        lemma_pieces(raw.drop_last());
    }
}

/// `pieces_of`, computed.
fn find_pieces(raw: &Vec<u8>) -> (pieces: Vec<Vec<u8>>)
    ensures
        bytes_of(pieces@) == pieces_of(raw@),
{
    let mut done: Vec<Vec<u8>> = Vec::new();
    let mut piece: Vec<u8> = Vec::new();
    let mut i: usize = 0;
    assert(raw@.take(0) =~= Seq::empty());
    assert(bytes_of(done@).push(piece@) =~= seq![Seq::<u8>::empty()]);
    while i < raw.len()
        invariant
            i <= raw.len(),
            bytes_of(done@).push(piece@) == pieces_of(raw@.take(i as int)),
        decreases raw.len() - i,
    {
        let ghost before = bytes_of(done@);
        let ghost rest = pieces_of(raw@.take(i as int));
        let ghost last = piece@;
        proof {
            assert(raw@.take(i + 1).drop_last() =~= raw@.take(i as int));
            assert(rest.drop_last() =~= before);
            assert(rest.last() == last);
        }
        let byte: u8 = raw[i];
        if byte == SLASH {
            done.push(piece);
            piece = Vec::new();
            assert(bytes_of(done@) =~= before.push(last));
        } else {
            piece.push(byte);
        }
        i = i + 1;
    }
    assert(raw@.take(i as int) =~= raw@);
    let ghost before = bytes_of(done@);
    let ghost last = piece@;
    done.push(piece);
    assert(bytes_of(done@) =~= before.push(last));
    done
}

/// Whether a piece is a single `.`.
fn is_dot(piece: &Vec<u8>) -> (dot: bool)
    ensures
        dot == (piece@ == seq![DOT]),
{
    let dot = piece.len() == 1 && piece[0] == DOT;
    proof {
        if dot {
            assert(piece@ =~= seq![DOT]);
        } else if piece@ == seq![DOT] {
            assert(piece@.len() == 1 && piece@[0] == DOT);
        }
    }
    dot
}

/// The components among the pieces.
fn components_among(pieces: &Vec<Vec<u8>>) -> (components: Vec<Vec<u8>>)
    ensures
        bytes_of(components@) == bytes_of(pieces@).filter(is_component()),
{
    let ghost all = bytes_of(pieces@);
    let mut components: Vec<Vec<u8>> = Vec::new();
    let mut i: usize = 0;
    proof {
        reveal(Seq::filter);
        assert(all.take(0).filter(is_component()) =~= Seq::empty());
        assert(bytes_of(components@) =~= Seq::empty());
    }
    while i < pieces.len()
        invariant
            i <= pieces.len(),
            all == bytes_of(pieces@),
            bytes_of(components@) == all.take(i as int).filter(is_component()),
        decreases pieces.len() - i,
    {
        let ghost before = bytes_of(components@);
        proof {
            lemma_filter_step(all, i as int, is_component());
            assert(all[i as int] == pieces@[i as int]@);
        }
        if pieces[i].len() > 0 && !is_dot(&pieces[i]) {
            let piece = pieces[i].clone();
            assert(piece@ == pieces@[i as int]@);
            components.push(piece);
            assert(bytes_of(components@) =~= before.push(piece@));
        }
        i = i + 1;
    }
    assert(all.take(i as int) =~= all);
    components
}

/// Whether two sequences of bytes are the same.
fn same_bytes(a: &Vec<u8>, b: &Vec<u8>) -> (same: bool)
    ensures
        same == (a@ == b@),
{
    if a.len() != b.len() {
        return false;
    }
    let mut i: usize = 0;
    while i < a.len()
        invariant
            a.len() == b.len(),
            i <= a.len(),
            forall|k: int| 0 <= k < i ==> a@[k] == b@[k],
        decreases a.len() - i,
    {
        if a[i] != b[i] {
            return false;
        }
        i = i + 1;
    }
    assert(a@ =~= b@);
    true
}

/// Whether two lists of components are the same.
fn same_components(a: &Vec<Vec<u8>>, b: &Vec<Vec<u8>>) -> (same: bool)
    ensures
        same == (bytes_of(a@) == bytes_of(b@)),
{
    if a.len() != b.len() {
        assert(bytes_of(a@).len() != bytes_of(b@).len());
        return false;
    }
    let mut i: usize = 0;
    while i < a.len()
        invariant
            a.len() == b.len(),
            i <= a.len(),
            forall|k: int| 0 <= k < i ==> (#[trigger] a@[k])@ == b@[k]@,
        decreases a.len() - i,
    {
        if !same_bytes(&a[i], &b[i]) {
            assert(bytes_of(a@)[i as int] != bytes_of(b@)[i as int]);
            return false;
        }
        i = i + 1;
    }
    assert(bytes_of(a@) =~= bytes_of(b@));
    true
}

/// Whether two paths have the same parts.
pub fn same_path(a: &Vec<u8>, b: &Vec<u8>) -> (same: bool)
    ensures
        same == (parts_of(a@) == parts_of(b@)),
{
    let a_pieces = find_pieces(a);
    let b_pieces = find_pieces(b);
    proof {
        lemma_pieces(a@);
        lemma_pieces(b@);
        assert(bytes_of(a_pieces@)[0] == a_pieces@[0]@);
        assert(bytes_of(b_pieces@)[0] == b_pieces@[0]@);
    }
    let a_rooted = a.len() > 0 && a[0] == SLASH;
    let b_rooted = b.len() > 0 && b[0] == SLASH;
    a_rooted == b_rooted && is_dot(&a_pieces[0]) == is_dot(&b_pieces[0]) && same_components(
        &components_among(&a_pieces),
        &components_among(&b_pieces),
    )
}

} // verus!
