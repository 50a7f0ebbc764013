//! Messages on a stream: each travels behind one byte that says how long
//! it is. The byte holds the length of the message and itself, so a
//! message has at most 254 bytes, and a zero in its place is a fault.

use vstd::prelude::*;
use vstd::slice::{slice_subrange, slice_to_vec};

verus! {

/// The longest message that a frame holds.
pub const MAX_FRAME_MESSAGE: usize = 254;

/// A message in its frame.
pub open spec fn framed(message: Seq<u8>) -> Seq<u8> {
    seq![(message.len() + 1) as u8] + message
}

/// What a stream has brought so far, taken apart.
pub struct Unframed {
    /// The messages that came whole, in order.
    pub messages: Seq<Seq<u8>>,
    /// What came behind them and is no whole frame yet.
    pub rest: Seq<u8>,
    /// Whether the rest begins with a zero, which begins no frame.
    pub broken: bool,
}

/// The messages at the front of a buffer, and what is left of it.
pub open spec fn unframed(buffer: Seq<u8>) -> Unframed
    decreases buffer.len(),
{
    if buffer.len() == 0 {
        Unframed { messages: Seq::empty(), rest: buffer, broken: false }
    } else if buffer[0] == 0 {
        Unframed { messages: Seq::empty(), rest: buffer, broken: true }
    } else if buffer.len() < buffer[0] {
        Unframed { messages: Seq::empty(), rest: buffer, broken: false }
    } else {
        let after = unframed(buffer.skip(buffer[0] as int));
        Unframed {
            messages: seq![buffer.subrange(1, buffer[0] as int)] + after.messages,
            rest: after.rest,
            broken: after.broken,
        }
    }
}

/// Round trip: a framed message at the front of a buffer is the first
/// message that is read from it, and the reading goes on behind it.
pub proof fn lemma_unframed_framed(message: Seq<u8>, tail: Seq<u8>)
    requires
        message.len() <= MAX_FRAME_MESSAGE,
    ensures
        unframed(framed(message) + tail).messages == seq![message] + unframed(tail).messages,
        unframed(framed(message) + tail).rest == unframed(tail).rest,
        unframed(framed(message) + tail).broken == unframed(tail).broken,
{
    let buffer = framed(message) + tail;
    let n = message.len() + 1;
    assert(buffer[0] == n);
    assert(buffer.skip(n as int) =~= tail);
    assert(buffer.subrange(1, n as int) =~= message);
}

/// The frame of a message; `None` where the message is longer than a
/// frame holds.
pub fn frame(message: &[u8]) -> (bytes: Option<Vec<u8>>)
    ensures
        match bytes {
            Some(bytes) => message@.len() <= MAX_FRAME_MESSAGE && bytes@ == framed(message@),
            None => message@.len() > MAX_FRAME_MESSAGE,
        },
{
    if message.len() > MAX_FRAME_MESSAGE {
        return None;
    }
    let mut bytes: Vec<u8> = Vec::new();
    bytes.push((message.len() + 1) as u8);
    bytes.extend_from_slice(message);
    proof {
        assert(bytes@ =~= framed(message@));
    }
    Some(bytes)
}

/// Takes the whole messages from the front of a buffer, in order, and
/// leaves the rest in it. The second result says whether the rest begins
/// with a zero: then the stream is broken, and nothing more will be read
/// from it.
pub fn take_messages(buffer: &mut Vec<u8>) -> (taken: (Vec<Vec<u8>>, bool))
    ensures
        taken.0.deep_view() == unframed(old(buffer)@).messages,
        final(buffer)@ == unframed(old(buffer)@).rest,
        taken.1 == unframed(old(buffer)@).broken,
{
    let ghost all = buffer@;
    let mut messages: Vec<Vec<u8>> = Vec::new();
    let mut broken = false;
    let mut i: usize = 0;
    proof {
        assert(all.skip(0) =~= all);
        assert(messages.deep_view() + unframed(all).messages =~= unframed(all).messages);
    }
    loop
        invariant_except_break
            !broken,
            unframed(all).messages == messages.deep_view() + unframed(all.skip(i as int)).messages,
            unframed(all).rest == unframed(all.skip(i as int)).rest,
            unframed(all).broken == unframed(all.skip(i as int)).broken,
        invariant
            0 <= i <= buffer.len(),
            buffer@ == all,
        ensures
            unframed(all).messages == messages.deep_view(),
            unframed(all).rest == all.skip(i as int),
            unframed(all).broken == broken,
        decreases buffer.len() - i,
    {
        let ghost rest = all.skip(i as int);
        if i == buffer.len() {
            proof {
                assert(messages.deep_view() + Seq::<Seq<u8>>::empty() =~= messages.deep_view());
            }
            break ;
        }
        let n: usize = buffer[i] as usize;
        proof {
            assert(rest[0] == buffer@[i as int]);
            assert(messages.deep_view() + Seq::<Seq<u8>>::empty() =~= messages.deep_view());
        }
        if n == 0 {
            broken = true;
            break ;
        }
        if buffer.len() - i < n {
            break ;
        }
        let message = slice_to_vec(slice_subrange(buffer.as_slice(), i + 1, i + n));
        let ghost before = messages.deep_view();
        proof {
            assert(message@ =~= rest.subrange(1, n as int));
            assert(message.deep_view() =~= message@);
            assert(rest.skip(n as int) =~= all.skip(i + n));
            let more = unframed(all.skip(i + n)).messages;
            assert(before + (seq![message@] + more) =~= before.push(message@) + more);
        }
        messages.push(message);
        proof {
            assert(messages.deep_view() =~= before.push(message@));
        }
        i = i + n;
    }
    let rest = buffer.split_off(i);
    proof {
        assert(rest@ =~= all.skip(i as int));
    }
    *buffer = rest;
    (messages, broken)
}

} // verus!
