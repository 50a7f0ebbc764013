//! Actions: what a client sends.

use vstd::prelude::*;
use crate::protocol::decode::{decode, message_of, DecodeError, DecodeErrorView};
use crate::protocol::encode::{encode_message, encoding, EncodeError};
use crate::protocol::bytes::MAX_PACKET_SIZE;
use crate::protocol::number::SeqNum;
use crate::protocol::part::Part;

verus! {

/// One message from a client: a sequence number and the steps it carries.
#[derive(Debug, PartialEq, Eq)]
pub struct Action<S> {
    pub seq: SeqNum,
    pub steps: Vec<S>,
}

/// An action as a mathematical value.
pub struct ActionView<S> {
    pub seq: SeqNum,
    pub steps: Seq<S>,
}

impl<S: DeepView> DeepView for Action<S> {
    type V = ActionView<S::V>;

    open spec fn deep_view(&self) -> ActionView<S::V> {
        ActionView { seq: self.seq, steps: self.steps.deep_view() }
    }
}

impl<S: Part> Action<S> {
    /// Decodes an action: `Ok` exactly where the message holds a header and
    /// nothing but well-formed lines.
    pub fn decode(message: &[u8]) -> (action: Result<Action<S>, DecodeError>)
        ensures
            match action {
                Ok(action) => message_of::<SeqNum, S>(message@) == (
                    action.steps.deep_view(),
                    Ok::<SeqNum, DecodeErrorView>(action.seq),
                ),
                Err(error) => message_of::<SeqNum, S>(message@).1 == Err::<SeqNum, DecodeErrorView>(error.deep_view()),
            },
    {
        let mut steps: Vec<S> = Vec::new();
        proof {
            assert(steps.deep_view() =~= Seq::<S::V>::empty());
        }
        let header = decode::<SeqNum, S>(message, &mut steps);
        proof {
            let items = message_of::<SeqNum, S>(message@).0;
            assert(Seq::<S::V>::empty() + items =~= items);
        }
        match header {
            Ok(seq) => Ok(Action { seq, steps }),
            Err(error) => Err(error),
        }
    }

    /// Encodes the action: `TooLarge` exactly where it does not fit into
    /// one datagram.
    pub fn encode(&self) -> (message: Result<Vec<u8>, EncodeError>)
        ensures
            match message {
                Ok(bytes) => bytes@ == encoding::<SeqNum, S>(self.seq, self.steps.deep_view())
                    && bytes@.len() <= MAX_PACKET_SIZE,
                Err(error) => error == EncodeError::TooLarge && encoding::<SeqNum, S>(
                    self.seq,
                    self.steps.deep_view(),
                ).len() > MAX_PACKET_SIZE,
            },
    {
        encode_message::<SeqNum, S>(&self.seq, &self.steps)
    }
}

} // verus!
