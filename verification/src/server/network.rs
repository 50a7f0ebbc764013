//! One tick of the server: the datagrams that came in advance the session
//! registry, then every client is sent what it is to perceive.
//!
//! A datagram that cannot be decoded closes the session of its sender and
//! touches no other; so does a failure to send.

use vstd::prelude::*;
use crate::protocol::action::{Action, ActionView};
use crate::protocol::bytes::MAX_PACKET_SIZE;
use crate::protocol::decode::{message_of, DecodeError, DecodeErrorView};
use crate::protocol::number::SeqNum;
use crate::protocol::percept::{Broadcast, BroadcastView, Percept, PerceptView};
use crate::protocol::perception::{PerceptionHeader, PerceptionHeaderView};
use crate::protocol::step::{Step, StepView};
use crate::server::address::Address;
use crate::protocol::encode::{header_line, lemma_header_directive};
use crate::protocol::number::{decimal_digits, lemma_decimal_digits_len};
use crate::protocol::text::lemma_escape_len;
use crate::server::clients::{
    index_of,
    knows,
    lemma_index_of,
    with_action,
    with_receipt,
    with_step,
    with_steps,
    without,
    ClientView,
    Clients,
    SessionView,
};
use crate::server::id::{generate_id, is_capital, is_id, is_numeral};
use vstd::utf8::{encode_utf8, is_ascii_chars, is_ascii_chars_encode_utf8};
use crate::server::sender::{lemma_perceptions_are_bounded, packetize, perceptions};

verus! {

/// A datagram and the address that it came from or goes to.
#[derive(Debug, PartialEq, Eq)]
pub struct Datagram {
    pub address: Address,
    pub bytes: Vec<u8>,
}

/// A datagram as a mathematical value.
pub struct DatagramView {
    pub address: Address,
    pub bytes: Seq<u8>,
}

impl DeepView for Datagram {
    type V = DatagramView;

    open spec fn deep_view(&self) -> DatagramView {
        DatagramView { address: self.address, bytes: self.bytes@ }
    }
}

/// The action that a datagram holds, or why it holds none.
pub open spec fn action_of(bytes: Seq<u8>) -> Result<ActionView<StepView>, DecodeErrorView> {
    match message_of::<SeqNum, Step>(bytes).1 {
        Ok(seq) => Ok(ActionView { seq, steps: message_of::<SeqNum, Step>(bytes).0 }),
        Err(error) => Err(error),
    }
}

/// The registry after a datagram: the action that it holds is taken, or,
/// where it holds none, the session of its sender is closed.
pub open spec fn after_datagram(
    sessions: Seq<SessionView>,
    datagram: DatagramView,
    id: Seq<char>,
    now_ms: u64,
) -> Seq<SessionView> {
    match action_of(datagram.bytes) {
        Ok(action) => with_action(sessions, datagram.address, action, id, now_ms),
        Err(_) => without(sessions, datagram.address),
    }
}

/// The registry after some datagrams, taken in order; `ids[i]` is the id
/// that a session gets which datagram `i` opens.
pub open spec fn after_datagrams(
    sessions: Seq<SessionView>,
    datagrams: Seq<DatagramView>,
    ids: Seq<Seq<char>>,
    now_ms: u64,
) -> Seq<SessionView>
    decreases datagrams.len(),
{
    if datagrams.len() == 0 {
        sessions
    } else {
        after_datagram(
            after_datagrams(sessions, datagrams.drop_last(), ids, now_ms),
            datagrams.last(),
            ids[datagrams.len() - 1],
            now_ms,
        )
    }
}

/// What all clients broadcast, in the order of their sessions.
pub open spec fn broadcasts_of(sessions: Seq<SessionView>) -> Seq<PerceptView>
    decreases sessions.len(),
{
    if sessions.len() == 0 {
        Seq::empty()
    } else {
        let before = broadcasts_of(sessions.drop_last());
        match sessions.last().client.broadcast {
            Some(message) => before.push(
                PerceptView::Broadcast(
                    BroadcastView { sender: sessions.last().client.id, message },
                ),
            ),
            None => before,
        }
    }
}

/// The header of the perceptions for a client: the client's highest
/// sequence number, and its id.
pub open spec fn header_for(client: ClientView) -> PerceptionHeaderView<Seq<char>> {
    PerceptionHeaderView { confirm_action: client.last_action, self_id: Some(client.id) }
}

/// Some datagrams, all for one address.
pub open spec fn addressed(address: Address, packets: Seq<Seq<u8>>) -> Seq<DatagramView> {
    Seq::new(packets.len(), |i: int| DatagramView { address, bytes: packets[i] })
}

/// The datagrams that carry `pool` to each of `sessions`, in their order.
pub open spec fn outgoing_to(sessions: Seq<SessionView>, pool: Seq<PerceptView>) -> Seq<
    DatagramView,
>
    decreases sessions.len(),
{
    if sessions.len() == 0 {
        Seq::empty()
    } else {
        outgoing_to(sessions.drop_last(), pool) + addressed(
            sessions.last().address,
            perceptions::<PerceptionHeader<String>, Percept>(
                header_for(sessions.last().client),
                pool,
            ),
        )
    }
}

/// The datagrams of one tick: every client is sent all broadcasts.
pub open spec fn outgoing(sessions: Seq<SessionView>) -> Seq<DatagramView> {
    outgoing_to(sessions, broadcasts_of(sessions))
}

/// Whether some of the datagrams goes to `address`.
pub open spec fn reaches(datagrams: Seq<DatagramView>, address: Address) -> bool {
    exists|i: int| 0 <= i < datagrams.len() && (#[trigger] datagrams[i]).address == address
}

/// Whether every session has an id of the shape of an id, as every
/// session has that a login opened under a drawn id.
pub open spec fn all_ids(sessions: Seq<SessionView>) -> bool {
    forall|i: int| 0 <= i < sessions.len() ==> is_id((#[trigger] sessions[i]).client.id)
}

/// The header line for a client whose id has the shape of an id fits into
/// a datagram, with room to spare.
pub proof fn lemma_id_header_fits(client: ClientView)
    requires
        is_id(client.id),
    ensures
        header_line::<PerceptionHeader<String>>(header_for(client)).len() <= 47,
{
    let digits = decimal_digits(client.last_action as nat);
    lemma_decimal_digits_len(client.last_action as nat);
    lemma_header_directive();
    assert(is_ascii_chars(client.id)) by {
        assert forall|i: int| 0 <= i < client.id.len() implies '\0' <= #[trigger] client.id[i]
            <= '\u{7f}' by {
            if i < 3 {
                assert(is_capital(client.id[i]));
            } else if i > 3 {
                assert(is_capital(client.id[i]) || is_numeral(client.id[i]));
            }
        }
    }
    is_ascii_chars_encode_utf8(client.id);
    lemma_escape_len(encode_utf8(client.id));
}

/// Every client whose header line fits into a datagram is sent at least
/// one datagram in a tick.
pub proof fn lemma_outgoing_reaches(sessions: Seq<SessionView>, pool: Seq<PerceptView>, k: int)
    requires
        0 <= k < sessions.len(),
        header_line::<PerceptionHeader<String>>(header_for(sessions[k].client)).len()
            <= MAX_PACKET_SIZE,
    ensures
        reaches(outgoing_to(sessions, pool), sessions[k].address),
    decreases sessions.len(),
{
    let front = sessions.drop_last();
    let last = sessions.last();
    let before = outgoing_to(front, pool);
    let packets = perceptions::<PerceptionHeader<String>, Percept>(header_for(last.client), pool);
    let all = outgoing_to(sessions, pool);
    if k < sessions.len() - 1 {
        assert(front[k] == sessions[k]);
        lemma_outgoing_reaches(front, pool, k);
        let i = choose|i: int| 0 <= i < before.len() && (#[trigger] before[i]).address
            == sessions[k].address;
        assert(all[i] == before[i]);
    } else {
        lemma_perceptions_are_bounded::<PerceptionHeader<String>, Percept>(
            header_for(last.client),
            pool,
        );
        assert(all[before.len() as int] == addressed(last.address, packets)[0]);
    }
}

/// A datagram that is taken keeps the ids of the sessions in shape, where
/// the id for a new session has the shape of an id.
pub proof fn lemma_after_datagram_keeps_ids(
    sessions: Seq<SessionView>,
    datagram: DatagramView,
    id: Seq<char>,
    now_ms: u64,
)
    requires
        all_ids(sessions),
        is_id(id),
    ensures
        all_ids(after_datagram(sessions, datagram, id, now_ms)),
{
    match action_of(datagram.bytes) {
        Ok(action) => {
            lemma_steps_keep_ids(sessions, datagram.address, action.steps, id, action.seq, now_ms);
            let mid = with_steps(sessions, datagram.address, action.steps, id, action.seq, now_ms);
            let after = with_receipt(mid, datagram.address, action.seq, now_ms);
            lemma_index_of(mid, datagram.address);
            assert(after.len() == mid.len());
            assert forall|i: int| 0 <= i < after.len() implies is_id(
                (#[trigger] after[i]).client.id,
            ) by {
                assert(is_id(mid[i].client.id));
            }
        },
        Err(_) => {
            let after = without(sessions, datagram.address);
            let at = index_of(sessions, datagram.address);
            lemma_index_of(sessions, datagram.address);
            assert forall|i: int| 0 <= i < after.len() implies is_id(
                (#[trigger] after[i]).client.id,
            ) by {
                if !knows(sessions, datagram.address) || i < at {
                    assert(after[i] == sessions[i]);
                } else {
                    assert(after[i] == sessions[i + 1]);
                }
            }
        },
    }
}

proof fn lemma_steps_keep_ids(
    sessions: Seq<SessionView>,
    address: Address,
    steps: Seq<StepView>,
    id: Seq<char>,
    seq: SeqNum,
    now_ms: u64,
)
    requires
        all_ids(sessions),
        is_id(id),
    ensures
        all_ids(with_steps(sessions, address, steps, id, seq, now_ms)),
    decreases steps.len(),
{
    if steps.len() != 0 {
        lemma_steps_keep_ids(sessions, address, steps.drop_last(), id, seq, now_ms);
        let mid = with_steps(sessions, address, steps.drop_last(), id, seq, now_ms);
        let after = with_step(mid, address, steps.last(), id, seq, now_ms);
        lemma_index_of(mid, address);
        assert forall|i: int| 0 <= i < after.len() implies is_id(
            (#[trigger] after[i]).client.id,
        ) by {
            if i < mid.len() {
                assert(is_id(mid[i].client.id));
            }
        }
    }
}

/// No datagram of a tick is longer than a datagram may be, and each goes
/// to the address of a session.
pub proof fn lemma_outgoing_is_bounded(sessions: Seq<SessionView>, pool: Seq<PerceptView>)
    ensures
        forall|i: int|
            0 <= i < outgoing_to(sessions, pool).len() ==> (#[trigger] outgoing_to(
                sessions,
                pool,
            )[i]).bytes.len() <= MAX_PACKET_SIZE && exists|k: int|
                0 <= k < sessions.len() && sessions[k].address == outgoing_to(
                    sessions,
                    pool,
                )[i].address,
    decreases sessions.len(),
{
    if sessions.len() != 0 {
        let front = sessions.drop_last();
        let last = sessions.last();
        let before = outgoing_to(front, pool);
        let packets = perceptions::<PerceptionHeader<String>, Percept>(
            header_for(last.client),
            pool,
        );
        lemma_outgoing_is_bounded(front, pool);
        lemma_perceptions_are_bounded::<PerceptionHeader<String>, Percept>(
            header_for(last.client),
            pool,
        );
        let all = outgoing_to(sessions, pool);
        assert forall|i: int| 0 <= i < all.len() implies (#[trigger] all[i]).bytes.len()
            <= MAX_PACKET_SIZE && exists|k: int|
            0 <= k < sessions.len() && sessions[k].address == all[i].address by {
            if i < before.len() {
                assert(all[i] == before[i]);
                let k = choose|k: int|
                    0 <= k < front.len() && front[k].address == before[i].address;
                assert(sessions[k] == front[k]);
            } else {
                assert(all[i] == addressed(last.address, packets)[i - before.len()]);
                assert(sessions[sessions.len() - 1] == last);
            }
        }
    }
}

/// Decodes a datagram and lets the registry take it, with `id` as the id
/// of a session that it opens. Returns the action, or the reason why the
/// session of the sender was closed.
pub fn apply_datagram(clients: &mut Clients, datagram: &Datagram, id: &String, now_ms: u64) -> (taken:
    Result<Action<Step>, DecodeError>)
    requires
        old(clients).wf(),
    ensures
        final(clients).wf(),
        final(clients)@ == after_datagram(old(clients)@, datagram.deep_view(), id@, now_ms),
        match taken {
            Ok(action) => action_of(datagram.bytes@) == Ok::<ActionView<StepView>, DecodeErrorView>(
                action.deep_view(),
            ),
            Err(error) => action_of(datagram.bytes@) == Err::<ActionView<StepView>, DecodeErrorView>(error.deep_view()),
        },
{
    match Action::<Step>::decode(datagram.bytes.as_slice()) {
        Ok(action) => {
            clients.apply_action(datagram.address, &action, id, now_ms);
            Ok(action)
        },
        Err(error) => {
            let _ = clients.on_error(datagram.address);
            Err(error)
        },
    }
}

/// Decodes a datagram and lets the registry take it; a session that it
/// opens gets a freshly drawn id.
pub fn on_datagram(clients: &mut Clients, datagram: &Datagram, now_ms: u64) -> (taken: Result<
    Action<Step>,
    DecodeError,
>)
    requires
        old(clients).wf(),
    ensures
        final(clients).wf(),
        exists|id: Seq<char>|
            #[trigger] is_id(id) && final(clients)@ == after_datagram(
                old(clients)@,
                datagram.deep_view(),
                id,
                now_ms,
            ),
        match taken {
            Ok(action) => action_of(datagram.bytes@) == Ok::<ActionView<StepView>, DecodeErrorView>(
                action.deep_view(),
            ),
            Err(error) => action_of(datagram.bytes@) == Err::<ActionView<StepView>, DecodeErrorView>(error.deep_view()),
        },
{
    let id = generate_id();
    apply_datagram(clients, datagram, &id, now_ms)
}

/// What all clients broadcast, as percepts.
pub fn broadcasts(clients: &Clients) -> (pool: Vec<Percept>)
    ensures
        pool.deep_view() == broadcasts_of(clients@),
{
    let mut pool: Vec<Percept> = Vec::new();
    let mut i: usize = 0;
    while i < clients.len()
        invariant
            0 <= i <= clients@.len(),
            pool.deep_view() =~= broadcasts_of(clients@.take(i as int)),
        decreases clients@.len() - i,
    {
        let session = clients.session(i);
        proof {
            assert(clients@.take(i + 1).drop_last() =~= clients@.take(i as int));
            assert(clients@.take(i + 1).last() == clients@[i as int]);
        }
        match &session.client.broadcast {
            Some(message) => {
                let ghost before = pool.deep_view();
                let percept = Percept::Broadcast(
                    Broadcast { sender: session.client.id.clone(), message: message.clone() },
                );
                pool.push(percept);
                proof {
                    assert(pool.deep_view() =~= before.push(percept.deep_view()));
                }
            },
            None => {},
        }
        i = i + 1;
    }
    proof {
        assert(clients@.take(i as int) =~= clients@);
    }
    pool
}

/// The datagrams of one tick: for every client, in the order of the
/// sessions, the perceptions that carry all broadcasts and confirm the
/// client's highest sequence number.
pub fn send_perceptions(clients: &Clients) -> (datagrams: Vec<Datagram>)
    ensures
        datagrams.deep_view() == outgoing(clients@),
        forall|i: int|
            0 <= i < datagrams@.len() ==> (#[trigger] datagrams@[i]).bytes@.len()
                <= MAX_PACKET_SIZE,
        forall|k: int|
            0 <= k < clients@.len() && is_id((#[trigger] clients@[k]).client.id) ==> reaches(
                datagrams.deep_view(),
                clients@[k].address,
            ),
{
    proof {
        lemma_outgoing_is_bounded(clients@, broadcasts_of(clients@));
        assert forall|k: int|
            0 <= k < clients@.len() && is_id((#[trigger] clients@[k]).client.id) implies reaches(
            outgoing(clients@),
            clients@[k].address,
        ) by {
            lemma_id_header_fits(clients@[k].client);
            lemma_outgoing_reaches(clients@, broadcasts_of(clients@), k);
        }
    }
    let pool = broadcasts(clients);
    let ghost items = pool.deep_view();
    let mut datagrams: Vec<Datagram> = Vec::new();
    let mut i: usize = 0;
    while i < clients.len()
        invariant
            0 <= i <= clients@.len(),
            items == pool.deep_view(),
            datagrams.deep_view() =~= outgoing_to(clients@.take(i as int), items),
        decreases clients@.len() - i,
    {
        let session = clients.session(i);
        let header = PerceptionHeader {
            confirm_action: session.client.last_action,
            self_id: Some(session.client.id.clone()),
        };
        proof {
            assert(clients@.take(i + 1).drop_last() =~= clients@.take(i as int));
            assert(clients@.take(i + 1).last() == clients@[i as int]);
            assert(header.deep_view() == header_for(clients@[i as int].client));
        }
        let mut packets = packetize::<PerceptionHeader<String>, Percept>(&header, &pool);
        let ghost all = packets.deep_view();
        let ghost before = datagrams.deep_view();
        let address = session.address;
        let mut k: usize = 0;
        let count = packets.len();
        while packets.len() > 0
            invariant
                k + packets.len() == all.len(),
                all.len() == count,
                packets.deep_view() =~= all.skip(k as int),
                datagrams.deep_view() =~= before + addressed(address, all.take(k as int)),
            decreases packets.len(),
        {
            let ghost prior = datagrams.deep_view();
            let ghost rest = packets.deep_view();
            let bytes = packets.remove(0);
            let datagram = Datagram { address, bytes };
            datagrams.push(datagram);
            proof {
                assert(bytes.deep_view() =~= bytes@);
                assert(bytes@ == rest[0]);
                assert(packets.deep_view() =~= rest.drop_first());
                assert(datagrams.deep_view() =~= prior.push(datagram.deep_view()));
                assert(addressed(address, all.take(k + 1)) =~= addressed(
                    address,
                    all.take(k as int),
                ).push(DatagramView { address, bytes: all[k as int] }));
            }
            k = k + 1;
        }
        proof {
            assert(all.take(k as int) =~= all);
        }
        i = i + 1;
    }
    proof {
        assert(clients@.take(i as int) =~= clients@);
        assert forall|j: int| 0 <= j < datagrams@.len() implies (
        #[trigger] datagrams@[j]).bytes@.len() <= MAX_PACKET_SIZE by {
            assert(datagrams.deep_view()[j] == datagrams@[j].deep_view());
        }
    }
    datagrams
}

} // verus!
