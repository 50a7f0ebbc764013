//! The decisions of the server's loop over connections: which connections
//! are open, what is queued for them, and what each event leads to. The
//! loop itself, which polls and reads and writes, is not here: it performs
//! what these functions return and hands back what happened.
//!
//! A failure on one connection closes that connection and no other.

use std::collections::{HashSet, VecDeque};
use vstd::prelude::*;
use crate::protocol::action::{Action, ActionView};
use crate::protocol::decode::{message_of_error, DecodeErrorView};
use crate::protocol::step::{Step, StepView};
use crate::server::network::action_of;

verus! {

/// The id of a connection.
pub type ConnId = u32;

/// What is queued for the connections.
#[derive(Debug, PartialEq, Eq)]
pub enum NetworkEvent {
    /// Send the message to these connections.
    Message(Vec<ConnId>, Vec<u8>),
    /// Close the connection, after the error that is given.
    Close(ConnId, String),
}

/// A queued event as a mathematical value.
pub enum NetworkEventView {
    Message(Seq<ConnId>, Seq<u8>),
    Close(ConnId, Seq<char>),
}

impl DeepView for NetworkEvent {
    type V = NetworkEventView;

    open spec fn deep_view(&self) -> NetworkEventView {
        match self {
            NetworkEvent::Message(recipients, message) => NetworkEventView::Message(
                recipients@,
                message@,
            ),
            NetworkEvent::Close(id, error) => NetworkEventView::Close(*id, error@),
        }
    }
}

/// What the game is told.
#[derive(Debug, PartialEq, Eq)]
pub enum GameEvent {
    /// A connection was opened.
    Enter(ConnId),
    /// A connection was closed.
    Leave(ConnId),
    /// An action came in on a connection.
    Action(ConnId, Action<Step>),
}

/// What the loop is to do next.
#[derive(Debug, PartialEq, Eq)]
pub enum Effect {
    /// Nothing is queued.
    Idle,
    /// Nothing to do for this event: it was about a connection that is
    /// not open.
    Skip,
    /// Send the message to these connections, all of which are open.
    Send(Vec<ConnId>, Vec<u8>),
    /// Close the connection, for the reason that is given, and tell the
    /// game that it left.
    Close(ConnId, String),
}

/// An effect as a mathematical value.
pub enum EffectView {
    Idle,
    Skip,
    Send(Seq<ConnId>, Seq<u8>),
    Close(ConnId, Seq<char>),
}

impl DeepView for Effect {
    type V = EffectView;

    open spec fn deep_view(&self) -> EffectView {
        match self {
            Effect::Idle => EffectView::Idle,
            Effect::Skip => EffectView::Skip,
            Effect::Send(recipients, message) => EffectView::Send(recipients@, message@),
            Effect::Close(id, error) => EffectView::Close(*id, error@),
        }
    }
}

/// The loop's state as a mathematical value.
pub struct NetworkView {
    /// The open connections.
    pub connections: Set<ConnId>,
    /// The events queued, first in, first out.
    pub queued: Seq<NetworkEventView>,
}

/// Those of `recipients` that are open connections, in their order.
pub open spec fn open_among(connections: Set<ConnId>, recipients: Seq<ConnId>) -> Seq<ConnId>
    decreases recipients.len(),
{
    if recipients.len() == 0 {
        Seq::empty()
    } else {
        let before = open_among(connections, recipients.drop_last());
        if connections.contains(recipients.last()) {
            before.push(recipients.last())
        } else {
            before
        }
    }
}

/// What the event at the head of the queue leads to.
pub open spec fn effect_of(m: NetworkView) -> EffectView {
    if m.queued.len() == 0 {
        EffectView::Idle
    } else {
        match m.queued[0] {
            NetworkEventView::Message(recipients, message) => EffectView::Send(
                open_among(m.connections, recipients),
                message,
            ),
            NetworkEventView::Close(id, error) => if m.connections.contains(id) {
                EffectView::Close(id, error)
            } else {
                EffectView::Skip
            },
        }
    }
}

/// The state after the event at the head of the queue was taken: a
/// connection that was to be closed is open no longer, and no other
/// connection is touched.
pub open spec fn advanced(m: NetworkView) -> NetworkView {
    if m.queued.len() == 0 {
        m
    } else {
        NetworkView {
            connections: match m.queued[0] {
                NetworkEventView::Message(_, _) => m.connections,
                NetworkEventView::Close(id, _) => m.connections.remove(id),
            },
            queued: m.queued.drop_first(),
        }
    }
}

/// The state after a message came in on a connection: one that holds no
/// action queues the closing of its connection, with what the decoder says
/// as the reason.
pub open spec fn after_message(m: NetworkView, id: ConnId, message: Seq<u8>) -> NetworkView {
    match action_of(message) {
        Err(error) => if m.connections.contains(id) {
            NetworkView {
                connections: m.connections,
                queued: m.queued.push(NetworkEventView::Close(id, message_of_error(error))),
            }
        } else {
            m
        },
        Ok(_) => m,
    }
}

/// The open connections and the events queued for them.
pub struct Network {
    connections: HashSet<ConnId>,
    events: VecDeque<NetworkEvent>,
}

impl View for Network {
    type V = NetworkView;

    closed spec fn view(&self) -> NetworkView {
        NetworkView { connections: self.connections@, queued: self.events.deep_view() }
    }
}

impl Network {
    /// No connections, nothing queued.
    pub fn new() -> (network: Network)
        ensures
            network@.connections == Set::<ConnId>::empty(),
            network@.queued == Seq::<NetworkEventView>::empty(),
    {
        let network = Network { connections: HashSet::new(), events: VecDeque::new() };
        proof {
            assert(network@.queued =~= Seq::<NetworkEventView>::empty());
        }
        network
    }

    /// Whether the connection is open.
    pub fn is_open(&self, id: ConnId) -> (open: bool)
        ensures
            open == self@.connections.contains(id),
    {
        broadcast use vstd::std_specs::hash::group_hash_axioms;

        self.connections.contains(&id)
    }

    /// Queues an event behind the others.
    pub fn enqueue(&mut self, event: NetworkEvent)
        ensures
            final(self)@.connections == old(self)@.connections,
            final(self)@.queued == old(self)@.queued.push(event.deep_view()),
    {
        self.events.push_back(event);
        proof {
            assert(final(self)@.queued =~= old(self)@.queued.push(event.deep_view()));
        }
    }

    /// A connection was accepted: it is open from now on. Says whether the
    /// game is to be told that it entered, which it is unless the
    /// connection was open already.
    pub fn on_accepted(&mut self, id: ConnId) -> (entered: bool)
        ensures
            entered == !old(self)@.connections.contains(id),
            final(self)@.queued == old(self)@.queued,
            final(self)@.connections == old(self)@.connections.insert(id),
    {
        broadcast use vstd::std_specs::hash::group_hash_axioms;

        self.connections.insert(id)
    }

    /// Sending or receiving failed on a connection: its closing is queued,
    /// with the error.
    pub fn on_failure(&mut self, id: ConnId, error: String)
        ensures
            final(self)@.connections == old(self)@.connections,
            final(self)@.queued == old(self)@.queued.push(NetworkEventView::Close(id, error@)),
    {
        self.enqueue(NetworkEvent::Close(id, error));
    }

    /// A message came in on a connection. The result is the action for
    /// the game, if the connection is open and the message holds one. A
    /// message on an open connection that holds none queues the closing of
    /// that connection.
    pub fn on_message(&mut self, id: ConnId, message: &[u8]) -> (action: Option<Action<Step>>)
        ensures
            final(self)@ == after_message(old(self)@, id, message@),
            match action {
                Some(action) => old(self)@.connections.contains(id) && action_of(message@) == Ok::<
                    ActionView<StepView>,
                    DecodeErrorView,
                >(action.deep_view()),
                None => !old(self)@.connections.contains(id) || action_of(message@) is Err,
            },
    {
        if !self.is_open(id) {
            return None;
        }
        match Action::<Step>::decode(message) {
            Ok(action) => Some(action),
            Err(error) => {
                self.on_failure(id, error.message());
                None
            },
        }
    }

    /// Those of `recipients` that are open.
    pub fn open_recipients(&self, recipients: &Vec<ConnId>) -> (open: Vec<ConnId>)
        ensures
            open@ == open_among(self@.connections, recipients@),
    {
        let mut open: Vec<ConnId> = Vec::new();
        let mut i: usize = 0;
        while i < recipients.len()
            invariant
                0 <= i <= recipients.len(),
                open@ == open_among(self@.connections, recipients@.take(i as int)),
            decreases recipients.len() - i,
        {
            let id = recipients[i];
            proof {
                assert(recipients@.take(i + 1).drop_last() =~= recipients@.take(i as int));
                assert(recipients@.take(i + 1).last() == id);
            }
            if self.is_open(id) {
                open.push(id);
            }
            i = i + 1;
        }
        proof {
            assert(recipients@.take(i as int) =~= recipients@);
        }
        open
    }

    /// Takes the event at the head of the queue and says what the loop is
    /// to do for it: nothing where nothing is queued or where a closed
    /// connection is to be closed; else to send a message to the open ones
    /// among its recipients, or to close a connection, which is no longer
    /// open afterwards.
    pub fn advance(&mut self) -> (effect: Effect)
        ensures
            effect.deep_view() == effect_of(old(self)@),
            final(self)@ == advanced(old(self)@),
    {
        broadcast use vstd::std_specs::hash::group_hash_axioms;

        let ghost queued = self@.queued;
        let event = self.events.pop_front();
        proof {
            if queued.len() > 0 {
                assert(self.events.deep_view() =~= queued.drop_first());
            } else {
                assert(self.events.deep_view() =~= queued);
            }
        }
        match event {
            None => Effect::Idle,
            Some(NetworkEvent::Message(recipients, message)) => {
                let open = self.open_recipients(&recipients);
                Effect::Send(open, message)
            },
            Some(NetworkEvent::Close(id, error)) => {
                if self.connections.remove(&id) {
                    Effect::Close(id, error)
                } else {
                    proof {
                        assert(self.connections@ =~= old(self)@.connections.remove(id));
                    }
                    Effect::Skip
                }
            },
        }
    }
}

} // verus!
