//! Small operations on text that the rest of the library shares.

use vstd::prelude::*;
use vstd::string::StrSliceExecFns;

verus! {

/// `String::push`: appends one character.
#[verifier::external_body]
pub(crate) fn push_char(text: &mut String, c: char)
    ensures
        final(text)@ == old(text)@.push(c),
{
    text.push(c)
}

/// `String::pop`: removes the last character and returns it; `None`, and
/// no change, where the text is empty.
#[verifier::external_body]
pub(crate) fn pop_char(text: &mut String) -> (last: Option<char>)
    ensures
        old(text)@.len() == 0 ==> last is None && final(text)@ == old(text)@,
        old(text)@.len() > 0 ==> last == Some(old(text)@.last())
            && final(text)@ == old(text)@.drop_last(),
{
    text.pop()
}

/// Whether `prefix` is how `text` begins.
pub open spec fn begins_with(text: Seq<char>, prefix: Seq<char>) -> bool {
    prefix.len() <= text.len() && text.take(prefix.len() as int) == prefix
}

/// Index of the first `c` in `text`, or the length of `text` if there is
/// none.
pub open spec fn char_position(text: Seq<char>, c: char) -> int
    decreases text.len(),
{
    if text.len() == 0 {
        0
    } else if text[0] == c {
        0
    } else {
        1 + char_position(text.drop_first(), c)
    }
}

/// Any index at which `c` stands, with no `c` before it, is the position;
/// so is the length of a text without `c`.
pub proof fn lemma_char_position(text: Seq<char>, c: char, i: int)
    requires
        0 <= i <= text.len(),
        i < text.len() ==> text[i] == c,
        forall|j: int| 0 <= j < i ==> text[j] != c,
    ensures
        char_position(text, c) == i,
    decreases text.len(),
{
    if text.len() != 0 && i != 0 {
        let rest = text.drop_first();
        assert(text[0] != c);
        assert forall|j: int| 0 <= j < i - 1 implies rest[j] != c by {
            assert(rest[j] == text[j + 1]);
        }
        lemma_char_position(rest, c, i - 1);
    }
}

/// Whether two texts are the same.
pub fn same_text(a: &str, b: &str) -> (same: bool)
    ensures
        same == (a@ == b@),
{
    let n = a.unicode_len();
    if n != b.unicode_len() {
        return false;
    }
    let mut i: usize = 0;
    while i < n
        invariant
            n == a@.len(),
            n == b@.len(),
            0 <= i <= n,
            forall|j: int| 0 <= j < i ==> a@[j] == b@[j],
        decreases n - i,
    {
        if a.get_char(i) != b.get_char(i) {
            return false;
        }
        i = i + 1;
    }
    proof {
        assert(a@ =~= b@);
    }
    true
}

/// Whether `text` begins with `prefix`.
pub fn starts_with(text: &str, prefix: &str) -> (yes: bool)
    ensures
        yes == begins_with(text@, prefix@),
{
    let n = prefix.unicode_len();
    if n > text.unicode_len() {
        return false;
    }
    let mut i: usize = 0;
    while i < n
        invariant
            n == prefix@.len(),
            n <= text@.len(),
            0 <= i <= n,
            forall|j: int| 0 <= j < i ==> text@[j] == prefix@[j],
        decreases n - i,
    {
        if text.get_char(i) != prefix.get_char(i) {
            proof {
                assert(text@.take(n as int)[i as int] == text@[i as int]);
            }
            return false;
        }
        i = i + 1;
    }
    proof {
        assert(text@.take(n as int) =~= prefix@);
    }
    true
}

/// Finds the first `c` in `text`; the length of `text` if there is none.
pub fn find_char(text: &str, c: char) -> (at: usize)
    ensures
        at == char_position(text@, c),
        at <= text@.len(),
{
    let n = text.unicode_len();
    let mut at: usize = 0;
    while at < n && text.get_char(at) != c
        invariant
            n == text@.len(),
            0 <= at <= n,
            forall|j: int| 0 <= j < at ==> text@[j] != c,
        decreases n - at,
    {
        at = at + 1;
    }
    proof {
        lemma_char_position(text@, c, at as int);
    }
    at
}

} // verus!
