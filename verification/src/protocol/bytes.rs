//! Searching byte strings: the groundwork of the line-oriented format.

use vstd::prelude::*;
use vstd::utf8::*;

verus! {

/// The byte that ends a line.
pub const LF: u8 = 0x0a;

/// The byte that separates the tokens of a line.
pub const SP: u8 = 0x20;

/// The largest datagram, in bytes, that either side puts on the wire.
pub const MAX_PACKET_SIZE: usize = 512;

/// Index of the first `b` in `s`, or `s.len()` where `s` holds none.
pub open spec fn position(s: Seq<u8>, b: u8) -> int
    decreases s.len(),
{
    if s.len() == 0 {
        0
    } else if s[0] == b {
        0
    } else {
        1 + position(s.drop_first(), b)
    }
}

/// `position` is in range, points at a `b` if there is one, and nothing
/// before it is a `b`.
pub proof fn lemma_position(s: Seq<u8>, b: u8)
    ensures
        0 <= position(s, b) <= s.len(),
        position(s, b) < s.len() ==> s[position(s, b)] == b,
        forall|j: int| 0 <= j < position(s, b) ==> s[j] != b,
    decreases s.len(),
{
    if s.len() != 0 && s[0] != b {
        let t = s.drop_first();
        lemma_position(t, b);
        assert forall|j: int| 0 <= j < position(s, b) implies s[j] != b by {
            if j > 0 {
                assert(s[j] == t[j - 1]);
            }
        }
    }
}

/// Any index with the three properties of `lemma_position` is the position.
pub proof fn lemma_position_unique(s: Seq<u8>, b: u8, i: int)
    requires
        0 <= i <= s.len(),
        i < s.len() ==> s[i] == b,
        forall|j: int| 0 <= j < i ==> s[j] != b,
    ensures
        position(s, b) == i,
    decreases s.len(),
{
    if s.len() != 0 && i != 0 {
        let t = s.drop_first();
        assert(s[0] != b);
        assert forall|j: int| 0 <= j < i - 1 implies t[j] != b by {
            assert(t[j] == s[j + 1]);
        }
        lemma_position_unique(t, b, i - 1);
    }
}

/// A byte string without `b` has its position at its end, and conversely.
pub proof fn lemma_position_absent(s: Seq<u8>, b: u8)
    ensures
        position(s, b) == s.len() <==> !s.contains(b),
{
    lemma_position(s, b);
    if !s.contains(b) {
        if position(s, b) < s.len() {
            assert(s.contains(s[position(s, b)]));
        }
    }
}

/// The position in `a + b` is that in `a` where `a` holds the byte, and
/// otherwise lies `a.len()` behind that in `b`.
pub proof fn lemma_position_concat(a: Seq<u8>, c: Seq<u8>, b: u8)
    ensures
        position(a + c, b) == if position(a, b) < a.len() {
            position(a, b)
        } else {
            a.len() + position(c, b)
        },
{
    lemma_position(a, b);
    lemma_position(c, b);
    let s = a + c;
    let i = if position(a, b) < a.len() {
        position(a, b)
    } else {
        a.len() + position(c, b)
    };
    assert forall|j: int| 0 <= j < i implies s[j] != b by {
        if j >= a.len() {
            assert(s[j] == c[j - a.len()]);
        }
    }
    lemma_position_unique(s, b, i);
}

/// Finds the first `b` at or after `from`; the length of `bytes` if none.
pub fn find(bytes: &[u8], from: usize, b: u8) -> (at: usize)
    requires
        from <= bytes.len(),
    ensures
        at == from + position(bytes@.skip(from as int), b),
        from <= at <= bytes.len(),
{
    let mut at: usize = from;
    while at < bytes.len() && bytes[at] != b
        invariant
            from <= at <= bytes.len(),
            forall|j: int| from <= j < at ==> bytes@[j] != b,
        decreases bytes.len() - at,
    {
        at = at + 1;
    }
    proof {
        let s = bytes@.skip(from as int);
        lemma_position_unique(s, b, at - from);
    }
    at
}

/// Every byte of `s` is ASCII.
pub open spec fn is_ascii_bytes(s: Seq<u8>) -> bool {
    forall|i: int| 0 <= i < s.len() ==> #[trigger] s[i] < 0x80
}

/// ASCII bytes are well-formed UTF-8.
pub proof fn lemma_ascii_is_utf8(s: Seq<u8>)
    requires
        is_ascii_bytes(s),
    ensures
        valid_utf8(s),
{
    assert(valid_utf8(s.subrange(0, 0)));
    assert(partial_valid_utf8(s, 0));
    assert forall|i: int| 0 <= 0 <= i < s.len() <= s.len() implies #[trigger] is_leading_byte_width_1(
        s[i],
    ) by {
        assert(s[i] < 0x80);
    }
    partial_valid_utf8_extend_ascii_block(s, 0, s.len() as int);
    assert(s.subrange(0, s.len() as int) =~= s);
}

/// `std::str::from_utf8`, with the error dropped: the text that `bytes`
/// encode, or `None` where they are not well-formed UTF-8. Well-formedness
/// and the decoded text are vstd's `valid_utf8` and `decode_utf8`.
#[verifier::external_body]
pub(crate) fn utf8_text(bytes: &[u8]) -> (text: Option<&str>)
    ensures
        match text {
            Some(s) => valid_utf8(bytes@) && s@ == decode_utf8(bytes@),
            None => !valid_utf8(bytes@),
        },
{
    std::str::from_utf8(bytes).ok()
}

} // verus!
