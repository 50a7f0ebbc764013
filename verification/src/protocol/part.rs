//! What a header or an item must offer so that the codec can carry it.

use vstd::prelude::*;
use vstd::utf8::*;
use crate::protocol::bytes::LF;

verus! {

/// A value that travels as the payload of one line: a header or an item.
///
/// The codec knows nothing of a payload's grammar. It relies on three facts,
/// which each implementation proves: a payload is well-formed UTF-8, it holds
/// no line feed, and reading a written payload gives the value back.
pub trait Part: DeepView + Sized {
    /// The payload that stands for `v` on the wire.
    spec fn wire(v: Self::V) -> Seq<u8>;

    /// The value that `payload` stands for, if it stands for one.
    spec fn parse(payload: Seq<u8>) -> Option<Self::V>;

    /// A payload is text that stays on its line.
    proof fn lemma_wire_is_text(v: Self::V)
        ensures
            valid_utf8(Self::wire(v)),
            !Self::wire(v).contains(LF),
    ;

    /// Reading inverts writing.
    proof fn lemma_parse_wire(v: Self::V)
        ensures
            Self::parse(Self::wire(v)) == Some(v),
    ;

    /// Appends the payload of `self` to `out`.
    fn write(&self, out: &mut Vec<u8>)
        ensures
            final(out)@ == old(out)@ + Self::wire(self.deep_view()),
    ;

    /// Reads a value from a payload.
    fn read(payload: &[u8]) -> (value: Option<Self>)
        ensures
            value.deep_view() == Self::parse(payload@),
    ;
}

} // verus!
