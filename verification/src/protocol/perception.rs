//! Perceptions: what the server sends.

use vstd::prelude::*;
use vstd::slice::slice_subrange;
use vstd::utf8::{valid_utf8, valid_utf8_concat};
use crate::protocol::bytes::{
    find,
    is_ascii_bytes,
    lemma_ascii_is_utf8,
    lemma_position_absent,
    lemma_position_concat,
    position,
    LF,
    MAX_PACKET_SIZE,
    SP,
};
use crate::protocol::decode::{decode, message_of, DecodeError, DecodeErrorView};
use crate::protocol::encode::{encode_message, encoding, EncodeError};
use crate::protocol::number::{
    decimal_digits,
    lemma_decimal_digits,
    lemma_digits_are_plain,
    parse_number,
    read_number,
    write_number,
    SeqNum,
};
use crate::protocol::part::Part;

verus! {

/// The header of a perception.
#[derive(Debug, PartialEq, Eq)]
pub struct PerceptionHeader<Id> {
    /// The highest sequence number that the server has processed from the
    /// recipient.
    pub confirm_action: SeqNum,
    /// The recipient's own id, where the server tells it.
    pub self_id: Option<Id>,
}

/// A perception's header as a mathematical value.
pub struct PerceptionHeaderView<Id> {
    pub confirm_action: SeqNum,
    pub self_id: Option<Id>,
}

impl<Id: DeepView> DeepView for PerceptionHeader<Id> {
    type V = PerceptionHeaderView<Id::V>;

    open spec fn deep_view(&self) -> PerceptionHeaderView<Id::V> {
        PerceptionHeaderView {
            confirm_action: self.confirm_action,
            self_id: self.self_id.deep_view(),
        }
    }
}

/// The payload that stands for a header: the digits of the confirmed
/// sequence number and, where there is an id, a space and the id's payload.
pub open spec fn header_wire<Id: Part>(header: PerceptionHeaderView<Id::V>) -> Seq<u8> {
    match header.self_id {
        None => decimal_digits(header.confirm_action as nat),
        Some(id) => decimal_digits(header.confirm_action as nat) + seq![SP] + Id::wire(id),
    }
}

/// The header that a payload stands for.
pub open spec fn header_parse<Id: Part>(payload: Seq<u8>) -> Option<PerceptionHeaderView<Id::V>> {
    let at = position(payload, SP);
    match parse_number(payload.take(at)) {
        None => None,
        Some(confirm_action) => if at >= payload.len() {
            Some(PerceptionHeaderView { confirm_action, self_id: None })
        } else {
            match Id::parse(payload.skip(at + 1)) {
                None => None,
                Some(id) => Some(PerceptionHeaderView { confirm_action, self_id: Some(id) }),
            }
        },
    }
}

/// How the payload of a header is taken apart again.
pub proof fn lemma_header_wire<Id: Part>(header: PerceptionHeaderView<Id::V>)
    ensures
        valid_utf8(header_wire::<Id>(header)),
        !header_wire::<Id>(header).contains(LF),
        header_parse::<Id>(header_wire::<Id>(header)) == Some(header),
{
    let digits = decimal_digits(header.confirm_action as nat);
    let payload = header_wire::<Id>(header);
    lemma_decimal_digits(header.confirm_action as nat);
    lemma_digits_are_plain(digits);
    lemma_ascii_is_utf8(digits);
    lemma_position_absent(digits, SP);
    match header.self_id {
        None => {
            assert(payload.take(payload.len() as int) =~= payload);
        },
        Some(id) => {
            let tail = Id::wire(id);
            Id::lemma_wire_is_text(id);
            Id::lemma_parse_wire(id);
            assert(payload =~= digits + (seq![SP] + tail));
            lemma_position_concat(digits, seq![SP] + tail, SP);
            assert(position(seq![SP] + tail, SP) == 0);
            assert(payload.take(digits.len() as int) =~= digits);
            assert(payload.skip(digits.len() as int + 1) =~= tail);
            let head = digits + seq![SP];
            assert(is_ascii_bytes(head));
            lemma_ascii_is_utf8(head);
            valid_utf8_concat(head, tail);
            if payload.contains(LF) {
                let i = choose|i: int| 0 <= i < payload.len() && payload[i] == LF;
                if i < digits.len() {
                    assert(digits.contains(digits[i]));
                } else if i > digits.len() {
                    assert(tail.contains(tail[i - digits.len() - 1]));
                }
            }
        },
    }
}

impl<Id: Part> Part for PerceptionHeader<Id> {
    open spec fn wire(v: PerceptionHeaderView<Id::V>) -> Seq<u8> {
        header_wire::<Id>(v)
    }

    open spec fn parse(payload: Seq<u8>) -> Option<PerceptionHeaderView<Id::V>> {
        header_parse::<Id>(payload)
    }

    proof fn lemma_wire_is_text(v: PerceptionHeaderView<Id::V>) {
        lemma_header_wire::<Id>(v);
    }

    proof fn lemma_parse_wire(v: PerceptionHeaderView<Id::V>) {
        lemma_header_wire::<Id>(v);
    }

    fn write(&self, out: &mut Vec<u8>) {
        write_number(self.confirm_action, out);
        match &self.self_id {
            None => {},
            Some(id) => {
                out.push(SP);
                id.write(out);
                proof {
                    assert(final(out)@ =~= old(out)@ + header_wire::<Id>(self.deep_view()));
                }
            },
        }
    }

    fn read(payload: &[u8]) -> (value: Option<PerceptionHeader<Id>>) {
        let at = find(payload, 0, SP);
        proof {
            assert(payload@.skip(0) =~= payload@);
        }
        let digits = slice_subrange(payload, 0, at);
        proof {
            assert(digits@ =~= payload@.take(at as int));
        }
        let confirm_action = match read_number(digits) {
            Some(number) => number,
            None => {
                return None;
            },
        };
        if at >= payload.len() {
            return Some(PerceptionHeader { confirm_action, self_id: None });
        }
        let tail = slice_subrange(payload, at + 1, payload.len());
        proof {
            assert(tail@ =~= payload@.skip(at + 1));
        }
        match Id::read(tail) {
            Some(id) => Some(PerceptionHeader { confirm_action, self_id: Some(id) }),
            None => None,
        }
    }
}

/// One message from the server: what it confirms, and what the recipient
/// is shown.
#[derive(Debug, PartialEq, Eq)]
pub struct Perception<Id, Percept> {
    pub header: PerceptionHeader<Id>,
    pub percepts: Vec<Percept>,
}

/// A perception as a mathematical value.
pub struct PerceptionView<Id, Percept> {
    pub header: PerceptionHeaderView<Id>,
    pub percepts: Seq<Percept>,
}

impl<Id: DeepView, Percept: DeepView> DeepView for Perception<Id, Percept> {
    type V = PerceptionView<Id::V, Percept::V>;

    open spec fn deep_view(&self) -> PerceptionView<Id::V, Percept::V> {
        PerceptionView { header: self.header.deep_view(), percepts: self.percepts.deep_view() }
    }
}

impl<Id: Part, Percept: Part> Perception<Id, Percept> {
    /// Decodes a perception: `Ok` exactly where the message holds a header
    /// and nothing but well-formed lines.
    pub fn decode(message: &[u8]) -> (perception: Result<Perception<Id, Percept>, DecodeError>)
        ensures
            match perception {
                Ok(perception) => message_of::<PerceptionHeader<Id>, Percept>(message@) == (
                    perception.percepts.deep_view(),
                    Ok::<PerceptionHeaderView<Id::V>, DecodeErrorView>(perception.header.deep_view()),
                ),
                Err(error) => message_of::<PerceptionHeader<Id>, Percept>(message@).1 == Err::<
                    PerceptionHeaderView<Id::V>,
                    DecodeErrorView,
                >(error.deep_view()),
            },
    {
        let mut percepts: Vec<Percept> = Vec::new();
        proof {
            assert(percepts.deep_view() =~= Seq::<Percept::V>::empty());
        }
        let header = decode::<PerceptionHeader<Id>, Percept>(message, &mut percepts);
        proof {
            let items = message_of::<PerceptionHeader<Id>, Percept>(message@).0;
            assert(Seq::<Percept::V>::empty() + items =~= items);
        }
        match header {
            Ok(header) => Ok(Perception { header, percepts }),
            Err(error) => Err(error),
        }
    }

    /// Encodes the perception: `TooLarge` exactly where it does not fit
    /// into one datagram.
    pub fn encode(&self) -> (message: Result<Vec<u8>, EncodeError>)
        ensures
            match message {
                Ok(bytes) => bytes@ == encoding::<PerceptionHeader<Id>, Percept>(
                    self.header.deep_view(),
                    self.percepts.deep_view(),
                ) && bytes@.len() <= MAX_PACKET_SIZE,
                Err(error) => error == EncodeError::TooLarge && encoding::<
                    PerceptionHeader<Id>,
                    Percept,
                >(self.header.deep_view(), self.percepts.deep_view()).len() > MAX_PACKET_SIZE,
            },
    {
        encode_message::<PerceptionHeader<Id>, Percept>(&self.header, &self.percepts)
    }
}

} // verus!
