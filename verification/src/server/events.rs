//! The queue of events between the connections and the game.

use std::collections::VecDeque;
use vstd::prelude::*;

verus! {

/// Something for the game to act on.
#[derive(Clone, Copy, Debug, PartialEq, Eq, Structural)]
pub enum Event {
    /// A client has connected, on this descriptor.
    Connect(i32),
    /// The client with this id is gone.
    Disconnect(usize),
    /// It is time to advance the world.
    Update,
}

/// The events that wait to be handled, first in, first out.
pub struct Events {
    buffer: VecDeque<Event>,
}

impl View for Events {
    type V = Seq<Event>;

    closed spec fn view(&self) -> Seq<Event> {
        self.buffer@
    }
}

impl Events {
    /// An empty queue.
    pub fn new() -> (events: Events)
        ensures
            events@ == Seq::<Event>::empty(),
    {
        Events { buffer: VecDeque::new() }
    }

    /// Puts an event behind the others.
    pub fn push(&mut self, event: Event)
        ensures
            final(self)@ == old(self)@.push(event),
    {
        self.buffer.push_back(event)
    }

    /// Takes the event that has waited longest; `None` where none waits.
    pub fn pull(&mut self) -> (event: Option<Event>)
        ensures
            match event {
                Some(event) => old(self)@.len() > 0 && event == old(self)@[0] && final(self)@
                    == old(self)@.drop_first(),
                None => old(self)@.len() == 0 && final(self)@ == old(self)@,
            },
    {
        let event = self.buffer.pop_front();
        proof {
            if old(self)@.len() > 0 {
                let queued = old(self)@;
                assert(queued.subrange(1, queued.len() as int) =~= queued.drop_first());
            }
        }
        event
    }

    /// Takes note of how sending to a client went: a negative status means
    /// that the client is gone, which the game is told.
    pub fn report_send(&mut self, client: usize, status: i32) -> (lost: bool)
        ensures
            lost == (status < 0),
            final(self)@ == if status < 0 {
                old(self)@.push(Event::Disconnect(client))
            } else {
                old(self)@
            },
    {
        if status < 0 {
            self.push(Event::Disconnect(client));
            true
        } else {
            false
        }
    }
}

} // verus!
