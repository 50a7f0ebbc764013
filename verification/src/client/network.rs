//! The client's view of the network: what it is asked to send goes to the
//! action assembler, and what the server sends becomes events.
//!
//! A datagram from the server that cannot be decoded is passed over.

use vstd::prelude::*;
use crate::client::action_assembler::{
    after_add,
    after_assemble,
    after_receipt,
    carried,
    is_queued,
    lemma_assemble_valid,
    lemma_confirmed_action_is_pruned,
    lemma_next_action,
    lemma_receipt_removes_confirmed,
    next_action,
    steps_of,
    valid,
    ActionAssembler,
    AssemblerView,
};
use crate::protocol::bytes::MAX_PACKET_SIZE;
use crate::protocol::decode::message_of;
use crate::protocol::encode::encoding;
use crate::protocol::number::SeqNum;
use crate::protocol::percept::{Broadcast, BroadcastView, Percept, PerceptView};
use crate::protocol::perception::{
    Perception,
    PerceptionHeader,
    PerceptionView,
};
use crate::protocol::step::{Step, StepView};
use crate::strings::same_text;

verus! {

/// What the client is asked to tell the server.
#[derive(Debug, PartialEq, Eq)]
pub enum ClientEvent {
    Login,
    Heartbeat,
    StartBroadcast(String),
    StopBroadcast,
}

/// What the server has told the client.
#[derive(Debug, PartialEq, Eq)]
pub enum ServerEvent {
    /// The id of this client.
    SelfId(String),
    /// Somebody broadcasts this.
    StartBroadcast(Broadcast),
    /// The sender with this id broadcasts no longer.
    StopBroadcast(String),
}

/// A server event as a mathematical value.
pub enum ServerEventView {
    SelfId(Seq<char>),
    StartBroadcast(BroadcastView),
    StopBroadcast(Seq<char>),
}

impl DeepView for ServerEvent {
    type V = ServerEventView;

    open spec fn deep_view(&self) -> ServerEventView {
        match self {
            ServerEvent::SelfId(id) => ServerEventView::SelfId(id@),
            ServerEvent::StartBroadcast(broadcast) => ServerEventView::StartBroadcast(
                broadcast.deep_view(),
            ),
            ServerEvent::StopBroadcast(sender) => ServerEventView::StopBroadcast(sender@),
        }
    }
}

/// The step that stands for an event; none for a heartbeat, which any
/// action is.
pub open spec fn step_for(event: ClientEvent) -> Option<StepView> {
    match event {
        ClientEvent::Login => Some(StepView::Login),
        ClientEvent::Heartbeat => None,
        ClientEvent::StartBroadcast(message) => Some(StepView::Broadcast(message@)),
        ClientEvent::StopBroadcast => Some(StepView::StopBroadcast),
    }
}

/// The broadcast that a percept shows.
pub open spec fn broadcast_of(percept: PerceptView) -> BroadcastView {
    match percept {
        PerceptView::Broadcast(broadcast) => broadcast,
    }
}

/// The senders of some percepts, each once, in the order in which they
/// first occur.
pub open spec fn senders_of(percepts: Seq<PerceptView>) -> Seq<Seq<char>>
    decreases percepts.len(),
{
    if percepts.len() == 0 {
        Seq::empty()
    } else {
        let before = senders_of(percepts.drop_last());
        let sender = broadcast_of(percepts.last()).sender;
        if before.contains(sender) {
            before
        } else {
            before.push(sender)
        }
    }
}

/// One event for each percept: the start of its broadcast.
pub open spec fn starts_of(percepts: Seq<PerceptView>) -> Seq<ServerEventView> {
    Seq::new(percepts.len(), |i: int| ServerEventView::StartBroadcast(broadcast_of(percepts[i])))
}

/// One event for each of `known` that is not among `current`: the stop of
/// its broadcast.
pub open spec fn stops_of(known: Seq<Seq<char>>, current: Seq<Seq<char>>) -> Seq<ServerEventView>
    decreases known.len(),
{
    if known.len() == 0 {
        Seq::empty()
    } else {
        let before = stops_of(known.drop_last(), current);
        if current.contains(known.last()) {
            before
        } else {
            before.push(ServerEventView::StopBroadcast(known.last()))
        }
    }
}

/// The events that a perception leads to, given the senders known before:
/// the broadcasts it shows, then the client's id if it tells one, then the
/// stops of the senders that it no longer shows.
pub open spec fn events_of(
    known: Seq<Seq<char>>,
    perception: PerceptionView<Seq<char>, PerceptView>,
) -> Seq<ServerEventView> {
    starts_of(perception.percepts) + (match perception.header.self_id {
        Some(id) => seq![ServerEventView::SelfId(id)],
        None => Seq::empty(),
    }) + stops_of(known, senders_of(perception.percepts))
}

/// The client's network state as a mathematical value.
pub struct NetworkView {
    pub assembler: AssemblerView,
    /// The senders that the last perception showed.
    pub broadcasters: Seq<Seq<char>>,
    /// The events that were not handed out yet.
    pub events: Seq<ServerEventView>,
}

/// The state after a perception.
pub open spec fn after_perception(
    m: NetworkView,
    perception: PerceptionView<Seq<char>, PerceptView>,
) -> NetworkView {
    NetworkView {
        assembler: after_receipt(m.assembler, perception.header.confirm_action),
        broadcasters: senders_of(perception.percepts),
        events: m.events + events_of(m.broadcasters, perception),
    }
}

/// The state after a datagram: that after the perception which it holds;
/// unchanged where it holds none.
pub open spec fn after_datagram(m: NetworkView, bytes: Seq<u8>) -> NetworkView {
    match message_of::<PerceptionHeader<String>, Percept>(bytes).1 {
        Ok(header) => after_perception(
            m,
            PerceptionView {
                header,
                percepts: message_of::<PerceptionHeader<String>, Percept>(bytes).0,
            },
        ),
        Err(_) => m,
    }
}

/// The state after some datagrams, in order.
pub open spec fn after_datagrams(m: NetworkView, datagrams: Seq<Seq<u8>>) -> NetworkView
    decreases datagrams.len(),
{
    if datagrams.len() == 0 {
        m
    } else {
        after_datagram(after_datagrams(m, datagrams.drop_last()), datagrams.last())
    }
}

/// The state after `update`: the assembler has assembled an action.
pub open spec fn after_update(m: NetworkView) -> NetworkView {
    NetworkView {
        assembler: after_assemble(m.assembler),
        broadcasters: m.broadcasters,
        events: m.events,
    }
}

/// Sent once: after an update, a perception that confirms its action (or
/// a later one) takes every step that the action carried out of the queue.
/// The action of the next update begins behind them, so no step of the
/// confirmed action travels again.
pub proof fn lemma_confirmed_update_is_not_resent(
    m: NetworkView,
    perception: PerceptionView<Seq<char>, PerceptView>,
)
    requires
        valid(m.assembler),
        m.assembler.next_seq < u64::MAX,
        perception.header.confirm_action >= m.assembler.next_seq,
    ensures
        ({
            let carried = next_action(m.assembler).steps;
            let after = after_perception(after_update(m), perception).assembler;
            &&& valid(after)
            &&& carried + steps_of(after.pending) == steps_of(m.assembler.pending)
            &&& after.pending == m.assembler.pending.skip(carried.len() as int)
            &&& forall|i: int| 0 <= i < after.pending.len() ==> (#[trigger] after.pending[i]).sent is None
            &&& next_action(after).steps == steps_of(m.assembler.pending).skip(
                carried.len() as int,
            ).take(next_action(after).steps.len() as int)
        }),
{
    let confirmed = perception.header.confirm_action;
    let k = carried(m.assembler.pending) as int;
    let after = after_perception(after_update(m), perception).assembler;
    lemma_next_action(m.assembler);
    lemma_assemble_valid(m.assembler);
    lemma_confirmed_action_is_pruned(m.assembler, confirmed);
    lemma_receipt_removes_confirmed(after_assemble(m.assembler), confirmed);
    lemma_next_action(after);
    assert(steps_of(after.pending) =~= steps_of(m.assembler.pending).skip(k));
    assert(steps_of(m.assembler.pending).take(k) + steps_of(m.assembler.pending).skip(k)
        =~= steps_of(m.assembler.pending));
    assert forall|i: int| 0 <= i < after.pending.len() implies (#[trigger] after.pending[i]).sent
        is None by {
        assert(after.pending[i] == m.assembler.pending[k + i]);
    }
}

/// The client's side of the connection to the server.
pub struct Network {
    action_assembler: ActionAssembler,
    broadcasters: Vec<String>,
    events: Vec<ServerEvent>,
}

impl View for Network {
    type V = NetworkView;

    closed spec fn view(&self) -> NetworkView {
        NetworkView {
            assembler: self.action_assembler@,
            broadcasters: self.broadcasters.deep_view(),
            events: self.events.deep_view(),
        }
    }
}

/// Whether `text` is among `texts`.
pub fn contains_text(texts: &Vec<String>, text: &str) -> (found: bool)
    ensures
        found == texts.deep_view().contains(text@),
{
    let mut i: usize = 0;
    while i < texts.len()
        invariant
            0 <= i <= texts.len(),
            forall|j: int| 0 <= j < i ==> texts.deep_view()[j] != text@,
        decreases texts.len() - i,
    {
        if same_text(texts[i].as_str(), text) {
            proof {
                assert(texts.deep_view()[i as int] == text@);
            }
            return true;
        }
        i = i + 1;
    }
    false
}

impl Network {
    /// Whether the state is one that its own methods lead to.
    pub closed spec fn wf(&self) -> bool {
        self.action_assembler.wf()
    }

    /// A well-formed network holds a valid assembler, so the laws of the
    /// assembler hold of its queue.
    pub proof fn lemma_wf(&self)
        requires
            self.wf(),
        ensures
            valid(self@.assembler),
    {
        self.action_assembler.lemma_wf();
    }

    /// The state at the start: a login is queued, nothing else is known.
    pub fn new() -> (network: Network)
        ensures
            network.wf(),
            network@.assembler == after_add(
                AssemblerView { next_seq: 0, pending: Seq::empty() },
                StepView::Login,
            ),
            network@.broadcasters == Seq::<Seq<char>>::empty(),
            network@.events == Seq::<ServerEventView>::empty(),
    {
        let mut action_assembler = ActionAssembler::new();
        let _ = action_assembler.add_step(Step::Login);
        let network = Network { action_assembler, broadcasters: Vec::new(), events: Vec::new() };
        proof {
            assert(network@.broadcasters =~= Seq::<Seq<char>>::empty());
            assert(network@.events =~= Seq::<ServerEventView>::empty());
        }
        network
    }

    /// The sequence number of the next action.
    pub fn next_seq(&self) -> (seq: SeqNum)
        ensures
            seq == self@.assembler.next_seq,
    {
        self.action_assembler.next_seq()
    }

    /// Queues the step that stands for an event; a heartbeat queues
    /// nothing. Says whether a step was queued.
    pub fn send(&mut self, event: ClientEvent) -> (queued: bool)
        requires
            old(self).wf(),
        ensures
            final(self).wf(),
            final(self)@.broadcasters == old(self)@.broadcasters,
            final(self)@.events == old(self)@.events,
            final(self)@.assembler == match step_for(event) {
                Some(step) => after_add(old(self)@.assembler, step),
                None => old(self)@.assembler,
            },
            queued == match step_for(event) {
                Some(step) => is_queued(step),
                None => false,
            },
    {
        let step = match event {
            ClientEvent::Login => Step::Login,
            ClientEvent::Heartbeat => {
                return false;
            },
            ClientEvent::StartBroadcast(message) => Step::Broadcast(message),
            ClientEvent::StopBroadcast => Step::StopBroadcast,
        };
        self.action_assembler.add_step(step)
    }

    /// Takes a perception: its events are held for `receive`, and its
    /// receipt goes to the assembler.
    pub fn perceive(&mut self, perception: &Perception<String, Percept>)
        requires
            old(self).wf(),
        ensures
            final(self).wf(),
            final(self)@ == after_perception(old(self)@, perception.deep_view()),
    {
        let ghost percepts = perception.percepts.deep_view();
        let ghost held = self.events.deep_view();
        let mut current: Vec<String> = Vec::new();
        let mut i: usize = 0;
        proof {
            assert(current.deep_view() =~= senders_of(percepts.take(0)));
            assert(self.events.deep_view() =~= held + starts_of(percepts.take(0)));
        }
        while i < perception.percepts.len()
            invariant
                0 <= i <= perception.percepts.len(),
                percepts == perception.percepts.deep_view(),
                self.action_assembler == old(self).action_assembler,
                self.broadcasters == old(self).broadcasters,
                current.deep_view() == senders_of(percepts.take(i as int)),
                self.events.deep_view() == held + starts_of(percepts.take(i as int)),
            decreases perception.percepts.len() - i,
        {
            proof {
                assert(percepts.take(i + 1).drop_last() =~= percepts.take(i as int));
                assert(percepts.take(i + 1).last() == percepts[i as int]);
            }
            match &perception.percepts[i] {
                Percept::Broadcast(broadcast) => {
                    if !contains_text(&current, broadcast.sender.as_str()) {
                        let ghost before = current.deep_view();
                        current.push(broadcast.sender.clone());
                        proof {
                            assert(current.deep_view() =~= before.push(broadcast.sender@));
                        }
                    }
                    let ghost before = self.events.deep_view();
                    let event = ServerEvent::StartBroadcast(broadcast.clone());
                    self.events.push(event);
                    proof {
                        assert(self.events.deep_view() =~= before.push(event.deep_view()));
                        assert(starts_of(percepts.take(i + 1)) =~= starts_of(
                            percepts.take(i as int),
                        ).push(event.deep_view()));
                    }
                },
            }
            i = i + 1;
        }
        proof {
            assert(percepts.take(i as int) =~= percepts);
        }
        let ghost started = self.events.deep_view();
        match &perception.header.self_id {
            Some(id) => {
                let event = ServerEvent::SelfId(id.clone());
                self.events.push(event);
                proof {
                    assert(self.events.deep_view() =~= started.push(event.deep_view()));
                }
            },
            None => {},
        }
        let ghost told = self.events.deep_view();
        let ghost known = self.broadcasters.deep_view();
        let mut k: usize = 0;
        proof {
            assert(told + stops_of(known.take(0), current.deep_view()) =~= told);
        }
        while k < self.broadcasters.len()
            invariant
                0 <= k <= self.broadcasters.len(),
                self.action_assembler == old(self).action_assembler,
                self.broadcasters == old(self).broadcasters,
                known == self.broadcasters.deep_view(),
                self.events.deep_view() == told + stops_of(
                    known.take(k as int),
                    current.deep_view(),
                ),
            decreases self.broadcasters.len() - k,
        {
            proof {
                assert(known.take(k + 1).drop_last() =~= known.take(k as int));
                assert(known.take(k + 1).last() == known[k as int]);
            }
            if !contains_text(&current, self.broadcasters[k].as_str()) {
                let ghost before = self.events.deep_view();
                let event = ServerEvent::StopBroadcast(self.broadcasters[k].clone());
                self.events.push(event);
                proof {
                    assert(self.events.deep_view() =~= before.push(event.deep_view()));
                }
            }
            k = k + 1;
        }
        proof {
            assert(known.take(k as int) =~= known);
            assert(self.events.deep_view() =~= held + events_of(known, perception.deep_view()));
        }
        self.broadcasters = current;
        self.action_assembler.process_receipt(perception.header.confirm_action);
    }

    /// Takes the datagrams that came from the server, in order, and hands
    /// out all events held.
    pub fn receive(&mut self, datagrams: &Vec<Vec<u8>>) -> (events: Vec<ServerEvent>)
        requires
            old(self).wf(),
        ensures
            final(self).wf(),
            final(self)@.assembler == after_datagrams(old(self)@, datagrams.deep_view()).assembler,
            final(self)@.broadcasters == after_datagrams(
                old(self)@,
                datagrams.deep_view(),
            ).broadcasters,
            events.deep_view() == after_datagrams(old(self)@, datagrams.deep_view()).events,
            final(self)@.events == Seq::<ServerEventView>::empty(),
    {
        let ghost all = datagrams.deep_view();
        let mut i: usize = 0;
        while i < datagrams.len()
            invariant
                0 <= i <= datagrams.len(),
                all == datagrams.deep_view(),
                self.wf(),
                self@ == after_datagrams(old(self)@, all.take(i as int)),
            decreases datagrams.len() - i,
        {
            proof {
                assert(all.take(i + 1).drop_last() =~= all.take(i as int));
                assert(all.take(i + 1).last() == all[i as int]);
                assert(datagrams@[i as int].deep_view() =~= datagrams@[i as int]@);
            }
            match Perception::<String, Percept>::decode(datagrams[i].as_slice()) {
                Ok(perception) => {
                    self.perceive(&perception);
                },
                Err(_) => {},
            }
            i = i + 1;
        }
        proof {
            assert(all.take(i as int) =~= all);
        }
        let mut events: Vec<ServerEvent> = Vec::new();
        std::mem::swap(&mut events, &mut self.events);
        proof {
            assert(final(self)@.events =~= Seq::<ServerEventView>::empty());
        }
        events
    }

    /// Assembles the next action and encodes it: the datagram to send.
    pub fn update(&mut self) -> (message: Vec<u8>)
        requires
            old(self).wf(),
            old(self)@.assembler.next_seq < u64::MAX,
        ensures
            final(self).wf(),
            final(self)@ == after_update(old(self)@),
            message@ == encoding::<SeqNum, Step>(
                next_action(old(self)@.assembler).seq,
                next_action(old(self)@.assembler).steps,
            ),
            message@.len() <= MAX_PACKET_SIZE,
    {
        let action = self.action_assembler.assemble();
        match action.encode() {
            Ok(message) => message,
            Err(_) => Vec::new(),
        }
    }
}

} // verus!
