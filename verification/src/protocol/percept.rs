//! Percepts: what the server lets a client see of the world.

use vstd::prelude::*;
use vstd::slice::slice_subrange;
use vstd::utf8::{valid_utf8, valid_utf8_concat};
use crate::protocol::bytes::{
    find,
    is_ascii_bytes,
    lemma_ascii_is_utf8,
    lemma_position_absent,
    lemma_position_concat,
    position,
    LF,
    SP,
};
use crate::protocol::part::Part;
use crate::protocol::step::{broadcast_word, lemma_word_is_plain, same_bytes, word_broadcast};
use crate::protocol::text::{lemma_text_token, read_text, text_of, text_token, write_text};

verus! {

impl Part for String {
    open spec fn wire(v: Seq<char>) -> Seq<u8> {
        text_token(v)
    }

    open spec fn parse(payload: Seq<u8>) -> Option<Seq<char>> {
        text_of(payload)
    }

    proof fn lemma_wire_is_text(v: Seq<char>) {
        lemma_text_token(v);
    }

    proof fn lemma_parse_wire(v: Seq<char>) {
        lemma_text_token(v);
    }

    fn write(&self, out: &mut Vec<u8>) {
        write_text(self.as_str(), out);
    }

    fn read(payload: &[u8]) -> (value: Option<String>) {
        read_text(payload)
    }
}

/// A message that a client broadcasts to all others.
#[derive(Debug, PartialEq, Eq)]
pub struct Broadcast {
    /// The id of the client that broadcasts.
    pub sender: String,
    /// What it broadcasts.
    pub message: String,
}

/// A broadcast as a mathematical value.
pub struct BroadcastView {
    pub sender: Seq<char>,
    pub message: Seq<char>,
}

impl DeepView for Broadcast {
    type V = BroadcastView;

    open spec fn deep_view(&self) -> BroadcastView {
        BroadcastView { sender: self.sender@, message: self.message@ }
    }
}

impl Clone for Broadcast {
    fn clone(&self) -> (copy: Broadcast)
        ensures
            copy.deep_view() == self.deep_view(),
    {
        Broadcast { sender: self.sender.clone(), message: self.message.clone() }
    }
}

/// One unit of world state that a client is shown.
#[derive(Debug, PartialEq, Eq)]
pub enum Percept {
    /// Somebody broadcasts a message.
    Broadcast(Broadcast),
}

/// A percept as a mathematical value.
pub enum PerceptView {
    Broadcast(BroadcastView),
}

impl DeepView for Percept {
    type V = PerceptView;

    open spec fn deep_view(&self) -> PerceptView {
        match self {
            Percept::Broadcast(broadcast) => PerceptView::Broadcast(broadcast.deep_view()),
        }
    }
}

impl Clone for Percept {
    fn clone(&self) -> (copy: Percept)
        ensures
            copy.deep_view() == self.deep_view(),
    {
        match self {
            Percept::Broadcast(broadcast) => Percept::Broadcast(broadcast.clone()),
        }
    }
}

/// The payload that stands for a percept: the keyword `BROADCAST`, then the
/// tokens of the sender and of the message, with one space before each.
pub open spec fn percept_wire(percept: PerceptView) -> Seq<u8> {
    match percept {
        PerceptView::Broadcast(broadcast) => word_broadcast() + seq![SP] + text_token(
            broadcast.sender,
        ) + seq![SP] + text_token(broadcast.message),
    }
}

/// The percept that a payload stands for.
pub open spec fn percept_parse(payload: Seq<u8>) -> Option<PerceptView> {
    let at = position(payload, SP);
    let rest = payload.skip(at + 1);
    let mid = position(rest, SP);
    if at >= payload.len() || payload.take(at) != word_broadcast() || mid >= rest.len() {
        None
    } else {
        match (text_of(rest.take(mid)), text_of(rest.skip(mid + 1))) {
            (Some(sender), Some(message)) => Some(
                PerceptView::Broadcast(BroadcastView { sender, message }),
            ),
            _ => None,
        }
    }
}

/// How the payload of a broadcast is taken apart again.
pub proof fn lemma_percept_wire(sender: Seq<char>, message: Seq<char>)
    ensures
        ({
            let payload = percept_wire(
                PerceptView::Broadcast(BroadcastView { sender, message }),
            );
            let word = word_broadcast();
            let rest = text_token(sender) + seq![SP] + text_token(message);
            &&& position(payload, SP) == word.len()
            &&& payload.take(word.len() as int) == word
            &&& payload.skip(word.len() as int + 1) == rest
            &&& position(rest, SP) == text_token(sender).len()
            &&& rest.take(text_token(sender).len() as int) == text_token(sender)
            &&& rest.skip(text_token(sender).len() as int + 1) == text_token(message)
            &&& word.len() < payload.len()
            &&& text_token(sender).len() < rest.len()
            &&& valid_utf8(payload)
            &&& !payload.contains(LF)
        }),
{
    let payload = percept_wire(PerceptView::Broadcast(BroadcastView { sender, message }));
    let word = word_broadcast();
    let first = text_token(sender);
    let second = text_token(message);
    let rest = first + seq![SP] + second;
    lemma_word_is_plain(word);
    lemma_text_token(sender);
    lemma_text_token(message);

    assert(payload =~= word + (seq![SP] + rest));
    lemma_position_concat(word, seq![SP] + rest, SP);
    assert(position(seq![SP] + rest, SP) == 0);
    assert(payload.take(word.len() as int) =~= word);
    assert(payload.skip(word.len() as int + 1) =~= rest);

    assert(rest =~= first + (seq![SP] + second));
    lemma_position_absent(first, SP);
    lemma_position_concat(first, seq![SP] + second, SP);
    assert(position(seq![SP] + second, SP) == 0);
    assert(rest.take(first.len() as int) =~= first);
    assert(rest.skip(first.len() as int + 1) =~= second);

    let head = word + seq![SP];
    assert(is_ascii_bytes(head));
    lemma_ascii_is_utf8(head);
    assert(is_ascii_bytes(seq![SP]));
    lemma_ascii_is_utf8(seq![SP]);
    valid_utf8_concat(head, first);
    valid_utf8_concat(head + first, seq![SP]);
    valid_utf8_concat(head + first + seq![SP], second);
    assert(payload =~= head + first + seq![SP] + second);

    if payload.contains(LF) {
        let i = choose|i: int| 0 <= i < payload.len() && payload[i] == LF;
        let a = word.len() as int;
        let b = a + 1 + first.len();
        if i < a {
            assert(word.contains(word[i]));
        } else if a < i < b {
            assert(first.contains(first[i - a - 1]));
        } else if i > b {
            assert(second.contains(second[i - b - 1]));
        }
    }
}

impl Part for Percept {
    open spec fn wire(v: PerceptView) -> Seq<u8> {
        percept_wire(v)
    }

    open spec fn parse(payload: Seq<u8>) -> Option<PerceptView> {
        percept_parse(payload)
    }

    proof fn lemma_wire_is_text(v: PerceptView) {
        match v {
            PerceptView::Broadcast(broadcast) => {
                lemma_percept_wire(broadcast.sender, broadcast.message);
            },
        }
    }

    proof fn lemma_parse_wire(v: PerceptView) {
        match v {
            PerceptView::Broadcast(broadcast) => {
                lemma_percept_wire(broadcast.sender, broadcast.message);
                lemma_text_token(broadcast.sender);
                lemma_text_token(broadcast.message);
            },
        }
    }

    fn write(&self, out: &mut Vec<u8>) {
        match self {
            Percept::Broadcast(broadcast) => {
                out.extend_from_slice(broadcast_word().as_slice());
                out.push(SP);
                write_text(broadcast.sender.as_str(), out);
                out.push(SP);
                write_text(broadcast.message.as_str(), out);
                proof {
                    assert(final(out)@ =~= old(out)@ + percept_wire(self.deep_view()));
                }
            },
        }
    }

    fn read(payload: &[u8]) -> (value: Option<Percept>) {
        let at = find(payload, 0, SP);
        proof {
            assert(payload@.skip(0) =~= payload@);
        }
        if at >= payload.len() {
            return None;
        }
        let word = slice_subrange(payload, 0, at);
        let rest = slice_subrange(payload, at + 1, payload.len());
        proof {
            assert(word@ =~= payload@.take(at as int));
            assert(rest@ =~= payload@.skip(at + 1));
        }
        if !same_bytes(word, broadcast_word().as_slice()) {
            return None;
        }
        let mid = find(rest, 0, SP);
        proof {
            assert(rest@.skip(0) =~= rest@);
        }
        if mid >= rest.len() {
            return None;
        }
        let first = slice_subrange(rest, 0, mid);
        let second = slice_subrange(rest, mid + 1, rest.len());
        proof {
            assert(first@ =~= rest@.take(mid as int));
            assert(second@ =~= rest@.skip(mid + 1));
        }
        let sender = match read_text(first) {
            Some(sender) => sender,
            None => {
                return None;
            },
        };
        match read_text(second) {
            Some(message) => Some(Percept::Broadcast(Broadcast { sender, message })),
            None => None,
        }
    }
}

} // verus!
