//! The receiver: it holds the datagrams that came in since the last tick
//! and lets the session registry take them, one by one.

use vstd::prelude::*;
use crate::protocol::action::{Action, ActionView};
use crate::protocol::decode::{DecodeError, DecodeErrorView};
use crate::protocol::step::{Step, StepView};
use crate::server::clients::{Clients, SessionView};
use crate::server::id::is_id;
use crate::server::network::{
    action_of,
    after_datagram,
    after_datagrams,
    on_datagram,
    Datagram,
    DatagramView,
};

verus! {

/// What became of a datagram: the action that it held, or the reason why
/// it held none.
pub type ReceiveResult = Result<Action<Step>, DecodeError>;

/// Whether `result` says what `bytes` hold.
pub open spec fn is_result_of(result: ReceiveResult, bytes: Seq<u8>) -> bool {
    match result {
        Ok(action) => action_of(bytes) == Ok::<ActionView<StepView>, DecodeErrorView>(
            action.deep_view(),
        ),
        Err(error) => action_of(bytes) == Err::<ActionView<StepView>, DecodeErrorView>(error.deep_view()),
    }
}

/// The registry after some datagrams depends on the ids of those
/// datagrams only.
pub proof fn lemma_after_datagrams_ids(
    sessions: Seq<SessionView>,
    datagrams: Seq<DatagramView>,
    ids: Seq<Seq<char>>,
    others: Seq<Seq<char>>,
    now_ms: u64,
)
    requires
        forall|i: int| 0 <= i < datagrams.len() ==> ids[i] == others[i],
    ensures
        after_datagrams(sessions, datagrams, ids, now_ms) == after_datagrams(
            sessions,
            datagrams,
            others,
            now_ms,
        ),
    decreases datagrams.len(),
{
    if datagrams.len() != 0 {
        lemma_after_datagrams_ids(sessions, datagrams.drop_last(), ids, others, now_ms);
    }
}

/// The datagrams that wait for the next tick.
pub struct Receiver {
    received: Vec<Datagram>,
}

impl View for Receiver {
    type V = Seq<DatagramView>;

    closed spec fn view(&self) -> Seq<DatagramView> {
        self.received.deep_view()
    }
}

impl Receiver {
    /// A receiver that holds nothing.
    pub fn new() -> (receiver: Receiver)
        ensures
            receiver@ == Seq::<DatagramView>::empty(),
    {
        let receiver = Receiver { received: Vec::new() };
        proof {
            assert(receiver@ =~= Seq::<DatagramView>::empty());
        }
        receiver
    }

    /// Holds a datagram for the next tick.
    pub fn push(&mut self, datagram: Datagram)
        ensures
            final(self)@ == old(self)@.push(datagram.deep_view()),
    {
        self.received.push(datagram);
        proof {
            assert(final(self)@ =~= old(self)@.push(datagram.deep_view()));
        }
    }

    /// Lets the registry take the datagrams held, in the order in which
    /// they came, and holds none afterwards. There is one result for each
    /// datagram. A session that a datagram opens gets a freshly drawn id.
    pub fn receive(&mut self, clients: &mut Clients, now_ms: u64) -> (results: Vec<ReceiveResult>)
        requires
            old(clients).wf(),
        ensures
            final(clients).wf(),
            final(self)@ == Seq::<DatagramView>::empty(),
            results@.len() == old(self)@.len(),
            forall|i: int|
                0 <= i < results@.len() ==> is_result_of(
                    #[trigger] results@[i],
                    old(self)@[i].bytes,
                ),
            exists|ids: Seq<Seq<char>>|
                ids.len() == old(self)@.len() && (forall|i: int|
                    0 <= i < ids.len() ==> is_id(#[trigger] ids[i])) && final(clients)@
                    == after_datagrams(old(clients)@, old(self)@, ids, now_ms),
    {
        let ghost all = self@;
        let ghost mut ids: Seq<Seq<char>> = Seq::empty();
        let mut results: Vec<ReceiveResult> = Vec::new();
        let mut i: usize = 0;
        while i < self.received.len()
            invariant
                0 <= i <= self.received.len(),
                self@ == all,
                all == old(self)@,
                clients.wf(),
                results@.len() == i,
                forall|j: int| 0 <= j < i ==> is_result_of(#[trigger] results@[j], all[j].bytes),
                ids.len() == i,
                forall|j: int| 0 <= j < i ==> is_id(#[trigger] ids[j]),
                clients@ == after_datagrams(old(clients)@, all.take(i as int), ids, now_ms),
            decreases self.received.len() - i,
        {
            let ghost before = clients@;
            let result = on_datagram(clients, &self.received[i], now_ms);
            proof {
                let id = choose|id: Seq<char>|
                    #[trigger] is_id(id) && clients@ == after_datagram(
                        before,
                        all[i as int],
                        id,
                        now_ms,
                    );
                let longer = ids.push(id);
                lemma_after_datagrams_ids(old(clients)@, all.take(i as int), ids, longer, now_ms);
                assert(all.take(i + 1).drop_last() =~= all.take(i as int));
                assert(all.take(i + 1).last() == all[i as int]);
                ids = longer;
            }
            results.push(result);
            i = i + 1;
        }
        proof {
            assert(all.take(i as int) =~= all);
        }
        self.received.clear();
        proof {
            assert(final(self)@ =~= Seq::<DatagramView>::empty());
        }
        results
    }
}

} // verus!
