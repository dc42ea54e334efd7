//! Working directories: the raw bytes of a path and the text they are shown as.

use crate::parts::{parts_of, same_path};
use vstd::prelude::*;
use vstd::utf8::{decode_utf8, valid_utf8};

verus! {

/// The text that `String::from_utf8_lossy` makes of bytes.
pub uninterp spec fn utf8_lossy(bytes: Seq<u8>) -> Seq<char>;

/// `String::from_utf8_lossy`: its text is a function of the bytes alone, and valid UTF-8 comes out
/// as the characters it encodes. Where the replacement characters stand in other input is left
/// unsaid.
#[verifier::external_body]
pub(crate) fn text_from_utf8_lossy(bytes: &[u8]) -> (text: String)
    ensures
        text@ == utf8_lossy(bytes@),
        valid_utf8(bytes@) ==> text@ == decode_utf8(bytes@),
{
    String::from_utf8_lossy(bytes).into_owned()
}

/// What a working directory is made of.
pub struct CwdView {
    pub raw: Seq<u8>,
    pub text: Seq<char>,
}

/// A working directory. The raw bytes are what a command is run in; the text is what names are
/// derived from and caches are keyed by. Two are equal where their paths have the same parts.
#[derive(Debug)]
pub struct Cwd {
    raw: Vec<u8>,
    text: String,
}

impl View for Cwd {
    type V = CwdView;

    closed spec fn view(&self) -> CwdView {
        CwdView { raw: self.raw@, text: self.text@ }
    }
}

impl Cwd {
    /// The text is always that of the bytes.
    #[verifier::type_invariant]
    closed spec fn text_of_raw(self) -> bool {
        self.text@ == utf8_lossy(self.raw@)
    }

    /// The working directory whose path has the given bytes.
    pub fn new(raw: Vec<u8>) -> (cwd: Cwd)
        ensures
            cwd@.raw == raw@,
            cwd@.text == utf8_lossy(raw@),
            valid_utf8(raw@) ==> cwd@.text == decode_utf8(raw@),
    {
        let text = text_from_utf8_lossy(raw.as_slice());
        Cwd { raw, text }
    }

    /// The bytes of the path.
    pub fn raw(&self) -> (raw: &Vec<u8>)
        ensures
            raw@ == self@.raw,
    {
        &self.raw
    }

    /// The path as text.
    pub fn text(&self) -> (text: &str)
        ensures
            text@ == self@.text,
            text@ == utf8_lossy(self@.raw),
    {
        proof {
            use_type_invariant(self);
        }
        self.text.as_str()
    }
}

impl PartialEq for Cwd {
    fn eq(&self, other: &Cwd) -> (equal: bool) {
        same_path(&self.raw, &other.raw)
    }
}

impl vstd::std_specs::cmp::PartialEqSpecImpl for Cwd {
    open spec fn obeys_eq_spec() -> bool {
        true
    }

    /// Paths with the same parts.
    open spec fn eq_spec(&self, other: &Cwd) -> bool {
        parts_of(self@.raw) == parts_of(other@.raw)
    }
}

impl Eq for Cwd {

}

impl Clone for Cwd {
    fn clone(&self) -> (cwd: Cwd)
        ensures
            cwd@ == self@,
    {
        proof {
            use_type_invariant(self);
        }
        let raw = self.raw.clone();
        assert(raw@ == self.raw@);
        Cwd { raw, text: self.text.clone() }
    }
}

} // verus!
