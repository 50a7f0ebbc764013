//! The session registry: what the server knows of each client, by the
//! address from which the client sends.
//!
//! A login from an address that has a session is ignored: the session that
//! is there stays, with its id, until an error or a long silence closes
//! it. The confirmed sequence number of a session never goes down, also
//! where actions arrive out of order.

use vstd::prelude::*;
use crate::protocol::action::{Action, ActionView};
use crate::protocol::number::SeqNum;
use crate::protocol::step::{Step, StepView};
use crate::server::address::Address;
use crate::server::id::{generate_id, is_id};

verus! {

/// What the server knows of one client.
#[derive(Debug, PartialEq, Eq)]
pub struct Client {
    /// The id under which the others see the client.
    pub id: String,
    /// The highest sequence number among the client's actions so far.
    pub last_action: SeqNum,
    /// When the client's last action came, in milliseconds.
    pub last_active_ms: u64,
    /// What the client broadcasts, if anything.
    pub broadcast: Option<String>,
}

/// A client as a mathematical value.
pub struct ClientView {
    pub id: Seq<char>,
    pub last_action: SeqNum,
    pub last_active_ms: u64,
    pub broadcast: Option<Seq<char>>,
}

impl DeepView for Client {
    type V = ClientView;

    open spec fn deep_view(&self) -> ClientView {
        ClientView {
            id: self.id@,
            last_action: self.last_action,
            last_active_ms: self.last_active_ms,
            broadcast: self.broadcast.deep_view(),
        }
    }
}

/// A session: an address and the client behind it.
#[derive(Debug, PartialEq, Eq)]
pub struct Session {
    pub address: Address,
    pub client: Client,
}

/// A session as a mathematical value.
pub struct SessionView {
    pub address: Address,
    pub client: ClientView,
}

impl DeepView for Session {
    type V = SessionView;

    open spec fn deep_view(&self) -> SessionView {
        SessionView { address: self.address, client: self.client.deep_view() }
    }
}

/// Index of the session of `address`, or the number of sessions where it
/// has none.
pub open spec fn index_of(sessions: Seq<SessionView>, address: Address) -> int
    decreases sessions.len(),
{
    if sessions.len() == 0 {
        0
    } else if sessions[0].address == address {
        0
    } else {
        1 + index_of(sessions.drop_first(), address)
    }
}

/// Whether `address` has a session.
pub open spec fn knows(sessions: Seq<SessionView>, address: Address) -> bool {
    index_of(sessions, address) < sessions.len()
}

/// The client at `address`; meaningful where the address has a session.
pub open spec fn client_at(sessions: Seq<SessionView>, address: Address) -> ClientView {
    sessions[index_of(sessions, address)].client
}

/// No two sessions share an address.
pub open spec fn distinct(sessions: Seq<SessionView>) -> bool {
    forall|i: int, j: int|
        0 <= i < j < sessions.len() ==> sessions[i].address != sessions[j].address
}

/// The registry with the client at index `at` replaced.
pub open spec fn with_client(sessions: Seq<SessionView>, at: int, client: ClientView) -> Seq<
    SessionView,
> {
    sessions.update(at, SessionView { address: sessions[at].address, client })
}

/// The registry after a login: a new session behind the others where the
/// address had none, no change where it had one.
pub open spec fn with_login(
    sessions: Seq<SessionView>,
    address: Address,
    id: Seq<char>,
    seq: SeqNum,
    now_ms: u64,
) -> Seq<SessionView> {
    if knows(sessions, address) {
        sessions
    } else {
        sessions.push(
            SessionView {
                address,
                client: ClientView { id, last_action: seq, last_active_ms: now_ms, broadcast: None },
            },
        )
    }
}

/// The registry without the session of `address`.
pub open spec fn without(sessions: Seq<SessionView>, address: Address) -> Seq<SessionView> {
    if knows(sessions, address) {
        sessions.remove(index_of(sessions, address))
    } else {
        sessions
    }
}

/// The registry after one step of an action from `address`: a login opens
/// a session; a broadcast sets the text of a session that is there, and a
/// stop clears it; no other step changes the registry, nor does any step
/// but a login from an address without a session.
pub open spec fn with_step(
    sessions: Seq<SessionView>,
    address: Address,
    step: StepView,
    id: Seq<char>,
    seq: SeqNum,
    now_ms: u64,
) -> Seq<SessionView> {
    let at = index_of(sessions, address);
    match step {
        StepView::Login => with_login(sessions, address, id, seq, now_ms),
        StepView::Broadcast(text) => if knows(sessions, address) {
            with_client(
                sessions,
                at,
                ClientView { broadcast: Some(text), ..sessions[at].client },
            )
        } else {
            sessions
        },
        StepView::StopBroadcast => if knows(sessions, address) {
            with_client(sessions, at, ClientView { broadcast: None, ..sessions[at].client })
        } else {
            sessions
        },
        StepView::Heartbeat => sessions,
        StepView::ScheduleManeuver(_) => sessions,
    }
}

/// The registry after some steps, taken in order.
pub open spec fn with_steps(
    sessions: Seq<SessionView>,
    address: Address,
    steps: Seq<StepView>,
    id: Seq<char>,
    seq: SeqNum,
    now_ms: u64,
) -> Seq<SessionView>
    decreases steps.len(),
{
    if steps.len() == 0 {
        sessions
    } else {
        with_step(
            with_steps(sessions, address, steps.drop_last(), id, seq, now_ms),
            address,
            steps.last(),
            id,
            seq,
            now_ms,
        )
    }
}

/// The registry after the session of `address`, if there is one, has
/// taken note of an action: the time is the latest, the sequence number
/// the highest so far.
pub open spec fn with_receipt(
    sessions: Seq<SessionView>,
    address: Address,
    seq: SeqNum,
    now_ms: u64,
) -> Seq<SessionView> {
    let at = index_of(sessions, address);
    if knows(sessions, address) {
        with_client(
            sessions,
            at,
            ClientView {
                last_action: if sessions[at].client.last_action < seq {
                    seq
                } else {
                    sessions[at].client.last_action
                },
                last_active_ms: now_ms,
                ..sessions[at].client
            },
        )
    } else {
        sessions
    }
}

/// The registry after an action from `address`: its steps in order, then
/// the note of the action. `id` is the id that a new session gets.
pub open spec fn with_action(
    sessions: Seq<SessionView>,
    address: Address,
    action: ActionView<StepView>,
    id: Seq<char>,
    now_ms: u64,
) -> Seq<SessionView> {
    with_receipt(
        with_steps(sessions, address, action.steps, id, action.seq, now_ms),
        address,
        action.seq,
        now_ms,
    )
}

/// Whether a client has been silent for longer than `timeout_ms` at the
/// time `now_ms`.
pub open spec fn is_idle(client: ClientView, now_ms: u64, timeout_ms: u64) -> bool {
    now_ms - client.last_active_ms > timeout_ms
}

/// The sessions that are not idle, in their order.
pub open spec fn without_idle(sessions: Seq<SessionView>, now_ms: u64, timeout_ms: u64) -> Seq<
    SessionView,
>
    decreases sessions.len(),
{
    if sessions.len() == 0 {
        Seq::empty()
    } else {
        let before = without_idle(sessions.drop_last(), now_ms, timeout_ms);
        if is_idle(sessions.last().client, now_ms, timeout_ms) {
            before
        } else {
            before.push(sessions.last())
        }
    }
}

/// The addresses of the idle sessions, in their order.
pub open spec fn idle_addresses(sessions: Seq<SessionView>, now_ms: u64, timeout_ms: u64) -> Seq<
    Address,
>
    decreases sessions.len(),
{
    if sessions.len() == 0 {
        Seq::empty()
    } else {
        let before = idle_addresses(sessions.drop_last(), now_ms, timeout_ms);
        if is_idle(sessions.last().client, now_ms, timeout_ms) {
            before.push(sessions.last().address)
        } else {
            before
        }
    }
}

/// The sessions that are not idle are sessions of the registry, in their
/// order: hence their addresses are distinct where those of the registry
/// are.
pub proof fn lemma_without_idle(sessions: Seq<SessionView>, now_ms: u64, timeout_ms: u64)
    requires
        distinct(sessions),
    ensures
        distinct(without_idle(sessions, now_ms, timeout_ms)),
        forall|i: int|
            0 <= i < without_idle(sessions, now_ms, timeout_ms).len() ==> sessions.contains(
                #[trigger] without_idle(sessions, now_ms, timeout_ms)[i],
            ) && !is_idle(without_idle(sessions, now_ms, timeout_ms)[i].client, now_ms, timeout_ms),
    decreases sessions.len(),
{
    if sessions.len() != 0 {
        let front = sessions.drop_last();
        let before = without_idle(front, now_ms, timeout_ms);
        let after = without_idle(sessions, now_ms, timeout_ms);
        assert forall|i: int, j: int| 0 <= i < j < front.len() implies front[i].address
            != front[j].address by {
            assert(front[i] == sessions[i] && front[j] == sessions[j]);
        }
        lemma_without_idle(front, now_ms, timeout_ms);
        assert forall|i: int| 0 <= i < after.len() implies sessions.contains(#[trigger] after[i])
            && !is_idle(after[i].client, now_ms, timeout_ms) by {
            if i < before.len() {
                assert(front.contains(before[i]));
                let k = choose|k: int| 0 <= k < front.len() && front[k] == before[i];
                assert(sessions[k] == before[i]);
            } else {
                assert(after[i] == sessions[sessions.len() - 1]);
            }
        }
        assert forall|i: int, j: int| 0 <= i < j < after.len() implies after[i].address
            != after[j].address by {
            if j >= before.len() {
                assert(front.contains(before[i]));
                let k = choose|k: int| 0 <= k < front.len() && front[k] == before[i];
                assert(sessions[k] == before[i]);
            }
        }
    }
}

/// Whether some of `steps` is a login.
pub open spec fn has_login(steps: Seq<StepView>) -> bool {
    exists|i: int| 0 <= i < steps.len() && steps[i] is Login
}

/// `index_of` is in range, points at a session of the address if there is
/// one, and no session before it has the address.
pub proof fn lemma_index_of(sessions: Seq<SessionView>, address: Address)
    ensures
        0 <= index_of(sessions, address) <= sessions.len(),
        knows(sessions, address) ==> sessions[index_of(sessions, address)].address == address,
        forall|j: int| 0 <= j < index_of(sessions, address) ==> sessions[j].address != address,
    decreases sessions.len(),
{
    if sessions.len() != 0 && sessions[0].address != address {
        let rest = sessions.drop_first();
        lemma_index_of(rest, address);
        assert forall|j: int| 0 <= j < index_of(sessions, address) implies sessions[j].address
            != address by {
            if j > 0 {
                assert(sessions[j] == rest[j - 1]);
            }
        }
    }
}

/// Any index with the three properties of `lemma_index_of` is the index.
pub proof fn lemma_index_of_unique(sessions: Seq<SessionView>, address: Address, i: int)
    requires
        0 <= i <= sessions.len(),
        i < sessions.len() ==> sessions[i].address == address,
        forall|j: int| 0 <= j < i ==> sessions[j].address != address,
    ensures
        index_of(sessions, address) == i,
    decreases sessions.len(),
{
    if sessions.len() != 0 && i != 0 {
        let rest = sessions.drop_first();
        assert(sessions[0].address != address);
        assert forall|j: int| 0 <= j < i - 1 implies rest[j].address != address by {
            assert(rest[j] == sessions[j + 1]);
        }
        lemma_index_of_unique(rest, address, i - 1);
    }
}

/// A login keeps the addresses distinct, and gives the address a session.
pub proof fn lemma_with_login(
    sessions: Seq<SessionView>,
    address: Address,
    id: Seq<char>,
    seq: SeqNum,
    now_ms: u64,
)
    requires
        distinct(sessions),
    ensures
        distinct(with_login(sessions, address, id, seq, now_ms)),
        knows(with_login(sessions, address, id, seq, now_ms), address),
        index_of(with_login(sessions, address, id, seq, now_ms), address) == index_of(
            sessions,
            address,
        ),
{
    lemma_index_of(sessions, address);
    let after = with_login(sessions, address, id, seq, now_ms);
    if !knows(sessions, address) {
        lemma_index_of_unique(after, address, sessions.len() as int);
    }
}

/// Replacing a client keeps every address where it is.
pub proof fn lemma_with_client(
    sessions: Seq<SessionView>,
    at: int,
    client: ClientView,
    address: Address,
)
    requires
        0 <= at < sessions.len(),
    ensures
        index_of(with_client(sessions, at, client), address) == index_of(sessions, address),
        distinct(sessions) ==> distinct(with_client(sessions, at, client)),
        with_client(sessions, at, client).len() == sessions.len(),
{
    lemma_index_of(sessions, address);
    let after = with_client(sessions, at, client);
    lemma_index_of_unique(after, address, index_of(sessions, address));
}

/// Removing a session keeps the addresses distinct, leaves the address
/// without a session, and leaves every other session as it was.
pub proof fn lemma_without(sessions: Seq<SessionView>, address: Address)
    requires
        distinct(sessions),
    ensures
        distinct(without(sessions, address)),
        !knows(without(sessions, address), address),
        forall|other: Address|
            other != address ==> knows(without(sessions, address), other) == knows(
                sessions,
                other,
            ) && (knows(sessions, other) ==> client_at(without(sessions, address), other)
                == client_at(sessions, other)),
{
    lemma_index_of(sessions, address);
    let after = without(sessions, address);
    let at = index_of(sessions, address);
    if knows(sessions, address) {
        assert forall|j: int| 0 <= j < after.len() implies after[j].address != address by {
            if j < at {
                assert(after[j] == sessions[j]);
            } else {
                assert(after[j] == sessions[j + 1]);
            }
        }
        lemma_index_of_unique(after, address, after.len() as int);
        assert forall|other: Address| other != address implies knows(after, other) == knows(
            sessions,
            other,
        ) && (knows(sessions, other) ==> client_at(after, other) == client_at(
            sessions,
            other,
        )) by {
            lemma_index_of(sessions, other);
            let k = index_of(sessions, other);
            let moved = if k < at {
                k
            } else if k < sessions.len() {
                k - 1
            } else {
                after.len() as int
            };
            assert forall|j: int| 0 <= j < moved implies after[j].address != other by {
                if j < at {
                    assert(after[j] == sessions[j]);
                } else {
                    assert(after[j] == sessions[j + 1]);
                }
            }
            lemma_index_of_unique(after, other, moved);
        }
    } else {
        assert forall|other: Address| other != address implies knows(after, other) == knows(
            sessions,
            other,
        ) && (knows(sessions, other) ==> client_at(after, other) == client_at(
            sessions,
            other,
        )) by {}
    }
}

/// A step keeps the addresses distinct and never closes a session.
pub proof fn lemma_with_step(
    sessions: Seq<SessionView>,
    address: Address,
    step: StepView,
    id: Seq<char>,
    seq: SeqNum,
    now_ms: u64,
)
    requires
        distinct(sessions),
    ensures
        distinct(with_step(sessions, address, step, id, seq, now_ms)),
        knows(sessions, address) ==> knows(
            with_step(sessions, address, step, id, seq, now_ms),
            address,
        ),
        step is Login ==> knows(with_step(sessions, address, step, id, seq, now_ms), address),
{
    lemma_index_of(sessions, address);
    lemma_with_login(sessions, address, id, seq, now_ms);
    if knows(sessions, address) {
        let at = index_of(sessions, address);
        match step {
            StepView::Broadcast(text) => {
                lemma_with_client(
                    sessions,
                    at,
                    ClientView { broadcast: Some(text), ..sessions[at].client },
                    address,
                );
            },
            StepView::StopBroadcast => {
                lemma_with_client(
                    sessions,
                    at,
                    ClientView { broadcast: None, ..sessions[at].client },
                    address,
                );
            },
            _ => {},
        }
    }
}

/// Steps keep the addresses distinct and never close a session.
pub proof fn lemma_with_steps(
    sessions: Seq<SessionView>,
    address: Address,
    steps: Seq<StepView>,
    id: Seq<char>,
    seq: SeqNum,
    now_ms: u64,
)
    requires
        distinct(sessions),
    ensures
        distinct(with_steps(sessions, address, steps, id, seq, now_ms)),
        knows(sessions, address) ==> knows(
            with_steps(sessions, address, steps, id, seq, now_ms),
            address,
        ),
    decreases steps.len(),
{
    if steps.len() != 0 {
        lemma_with_steps(sessions, address, steps.drop_last(), id, seq, now_ms);
        lemma_with_step(
            with_steps(sessions, address, steps.drop_last(), id, seq, now_ms),
            address,
            steps.last(),
            id,
            seq,
            now_ms,
        );
    }
}

/// An action from an address without a session, and without a login among
/// its steps, changes nothing.
pub proof fn lemma_stranger_is_ignored(
    sessions: Seq<SessionView>,
    address: Address,
    action: ActionView<StepView>,
    id: Seq<char>,
    now_ms: u64,
)
    requires
        !knows(sessions, address),
        !has_login(action.steps),
    ensures
        with_action(sessions, address, action, id, now_ms) == sessions,
{
    lemma_stranger_steps(sessions, address, action.steps, id, action.seq, now_ms);
}

proof fn lemma_stranger_steps(
    sessions: Seq<SessionView>,
    address: Address,
    steps: Seq<StepView>,
    id: Seq<char>,
    seq: SeqNum,
    now_ms: u64,
)
    requires
        !knows(sessions, address),
        !has_login(steps),
    ensures
        with_steps(sessions, address, steps, id, seq, now_ms) == sessions,
    decreases steps.len(),
{
    if steps.len() != 0 {
        let before = steps.drop_last();
        assert forall|i: int| 0 <= i < before.len() implies !(before[i] is Login) by {
            assert(before[i] == steps[i]);
        }
        lemma_stranger_steps(sessions, address, before, id, seq, now_ms);
        assert(!(steps[steps.len() - 1] is Login));
    }
}

/// The confirmed sequence number of a session never goes down, and an
/// action never closes a session.
pub proof fn lemma_last_action_never_decreases(
    sessions: Seq<SessionView>,
    address: Address,
    action: ActionView<StepView>,
    id: Seq<char>,
    now_ms: u64,
)
    requires
        distinct(sessions),
        knows(sessions, address),
    ensures
        knows(with_action(sessions, address, action, id, now_ms), address),
        client_at(with_action(sessions, address, action, id, now_ms), address).last_action
            >= client_at(sessions, address).last_action,
        client_at(with_action(sessions, address, action, id, now_ms), address).last_action
            >= action.seq,
        client_at(with_action(sessions, address, action, id, now_ms), address).id == client_at(
            sessions,
            address,
        ).id,
{
    lemma_steps_keep_client(sessions, address, action.steps, id, action.seq, now_ms);
    let mid = with_steps(sessions, address, action.steps, id, action.seq, now_ms);
    let at = index_of(mid, address);
    lemma_index_of(mid, address);
    lemma_with_client(
        mid,
        at,
        ClientView {
            last_action: if mid[at].client.last_action < action.seq {
                action.seq
            } else {
                mid[at].client.last_action
            },
            last_active_ms: now_ms,
            ..mid[at].client
        },
        address,
    );
}

proof fn lemma_steps_keep_client(
    sessions: Seq<SessionView>,
    address: Address,
    steps: Seq<StepView>,
    id: Seq<char>,
    seq: SeqNum,
    now_ms: u64,
)
    requires
        distinct(sessions),
        knows(sessions, address),
    ensures
        knows(with_steps(sessions, address, steps, id, seq, now_ms), address),
        client_at(with_steps(sessions, address, steps, id, seq, now_ms), address).last_action
            == client_at(sessions, address).last_action,
        client_at(with_steps(sessions, address, steps, id, seq, now_ms), address).id
            == client_at(sessions, address).id,
    decreases steps.len(),
{
    if steps.len() != 0 {
        lemma_steps_keep_client(sessions, address, steps.drop_last(), id, seq, now_ms);
        lemma_with_steps(sessions, address, steps.drop_last(), id, seq, now_ms);
        let mid = with_steps(sessions, address, steps.drop_last(), id, seq, now_ms);
        let at = index_of(mid, address);
        lemma_index_of(mid, address);
        match steps.last() {
            StepView::Broadcast(text) => {
                lemma_with_client(
                    mid,
                    at,
                    ClientView { broadcast: Some(text), ..mid[at].client },
                    address,
                );
            },
            StepView::StopBroadcast => {
                lemma_with_client(
                    mid,
                    at,
                    ClientView { broadcast: None, ..mid[at].client },
                    address,
                );
            },
            _ => {},
        }
    }
}

/// The session registry.
pub struct Clients {
    sessions: Vec<Session>,
}

impl View for Clients {
    type V = Seq<SessionView>;

    closed spec fn view(&self) -> Seq<SessionView> {
        self.sessions.deep_view()
    }
}

impl Clients {
    /// Whether the registry is in a state that its own methods lead to: no
    /// two sessions share an address.
    pub closed spec fn wf(&self) -> bool {
        distinct(self@)
    }

    /// In a well-formed registry no two sessions share an address.
    pub proof fn lemma_wf(&self)
        requires
            self.wf(),
        ensures
            distinct(self@),
    {
    }

    /// A registry without sessions.
    pub fn new() -> (clients: Clients)
        ensures
            clients.wf(),
            clients@ == Seq::<SessionView>::empty(),
    {
        let clients = Clients { sessions: Vec::new() };
        proof {
            assert(clients@ =~= Seq::<SessionView>::empty());
        }
        clients
    }

    /// How many sessions there are.
    pub fn len(&self) -> (len: usize)
        ensures
            len == self@.len(),
    {
        self.sessions.len()
    }

    /// The session at index `at`, in the order in which the sessions were
    /// opened.
    pub fn session(&self, at: usize) -> (session: &Session)
        requires
            at < self@.len(),
        ensures
            session.deep_view() == self@[at as int],
    {
        &self.sessions[at]
    }

    /// The index of the session of `address`.
    pub fn find(&self, address: Address) -> (at: Option<usize>)
        ensures
            match at {
                Some(at) => knows(self@, address) && at == index_of(self@, address),
                None => !knows(self@, address),
            },
    {
        let mut i: usize = 0;
        while i < self.sessions.len()
            invariant
                0 <= i <= self.sessions.len(),
                forall|j: int| 0 <= j < i ==> self@[j].address != address,
            decreases self.sessions.len() - i,
        {
            if self.sessions[i].address == address {
                proof {
                    lemma_index_of_unique(self@, address, i as int);
                }
                return Some(i);
            }
            i = i + 1;
        }
        proof {
            lemma_index_of_unique(self@, address, i as int);
        }
        None
    }

    /// The client at `address`.
    pub fn get(&self, address: Address) -> (client: Option<&Client>)
        ensures
            match client {
                Some(client) => knows(self@, address) && client.deep_view() == client_at(
                    self@,
                    address,
                ),
                None => !knows(self@, address),
            },
    {
        match self.find(address) {
            Some(at) => Some(&self.sessions[at].client),
            None => None,
        }
    }

    /// Opens a session for `address` under the given id, unless the
    /// address has one; says whether it opened one.
    pub fn login_as(&mut self, address: Address, id: String, seq: SeqNum, now_ms: u64) -> (opened:
        bool)
        requires
            old(self).wf(),
        ensures
            final(self).wf(),
            opened == !knows(old(self)@, address),
            final(self)@ == with_login(old(self)@, address, id@, seq, now_ms),
    {
        proof {
            lemma_with_login(self@, address, id@, seq, now_ms);
        }
        match self.find(address) {
            Some(_) => false,
            None => {
                let client = Client { id, last_action: seq, last_active_ms: now_ms, broadcast: None };
                self.sessions.push(Session { address, client });
                proof {
                    assert(final(self)@ =~= with_login(old(self)@, address, id@, seq, now_ms));
                }
                true
            },
        }
    }

    /// A login from `address`: opens a session under a freshly drawn id,
    /// unless the address has one; says whether it opened one.
    pub fn on_login(&mut self, address: Address, seq: SeqNum, now_ms: u64) -> (opened: bool)
        requires
            old(self).wf(),
        ensures
            final(self).wf(),
            opened == !knows(old(self)@, address),
            knows(final(self)@, address),
            final(self)@ == with_login(
                old(self)@,
                address,
                client_at(final(self)@, address).id,
                seq,
                now_ms,
            ),
            opened ==> is_id(client_at(final(self)@, address).id),
    {
        let id = generate_id();
        proof {
            lemma_with_login(self@, address, id@, seq, now_ms);
            lemma_index_of(self@, address);
        }
        self.login_as(address, id, seq, now_ms)
    }

    /// A failure at `address`: its session is closed, if it has one; says
    /// whether it had.
    pub fn on_error(&mut self, address: Address) -> (closed: bool)
        requires
            old(self).wf(),
        ensures
            final(self).wf(),
            closed == knows(old(self)@, address),
            final(self)@ == without(old(self)@, address),
    {
        proof {
            lemma_without(self@, address);
        }
        match self.find(address) {
            None => false,
            Some(at) => {
                let _ = self.sessions.remove(at);
                proof {
                    assert(final(self)@ =~= without(old(self)@, address));
                }
                true
            },
        }
    }

    /// Closes the sessions of the clients that have been silent for longer
    /// than `timeout_ms` at the time `now_ms`, and returns their addresses.
    pub fn remove_inactive(&mut self, now_ms: u64, timeout_ms: u64) -> (removed: Vec<Address>)
        requires
            old(self).wf(),
        ensures
            final(self).wf(),
            final(self)@ == without_idle(old(self)@, now_ms, timeout_ms),
            removed@ == idle_addresses(old(self)@, now_ms, timeout_ms),
    {
        let ghost all = self@;
        proof {
            lemma_without_idle(all, now_ms, timeout_ms);
        }
        let mut kept: Vec<Session> = Vec::new();
        let mut removed: Vec<Address> = Vec::new();
        let mut sessions: Vec<Session> = Vec::new();
        std::mem::swap(&mut sessions, &mut self.sessions);
        let mut i: usize = 0;
        let count = sessions.len();
        proof {
            assert(sessions.deep_view() =~= all.skip(0));
            assert(kept.deep_view() =~= without_idle(all.take(0), now_ms, timeout_ms));
        }
        while sessions.len() > 0
            invariant
                i + sessions.len() == count,
                count == all.len(),
                sessions.deep_view() =~= all.skip(i as int),
                kept.deep_view() =~= without_idle(all.take(i as int), now_ms, timeout_ms),
                removed@ =~= idle_addresses(all.take(i as int), now_ms, timeout_ms),
            decreases sessions.len(),
        {
            let ghost rest = sessions.deep_view();
            let ghost before = kept.deep_view();
            let session = sessions.remove(0);
            proof {
                assert(session.deep_view() == rest[0]);
                assert(sessions.deep_view() =~= rest.drop_first());
                assert(all.take(i + 1).drop_last() =~= all.take(i as int));
                assert(all.take(i + 1).last() == all[i as int]);
            }
            let idle = now_ms > session.client.last_active_ms && now_ms
                - session.client.last_active_ms > timeout_ms;
            if idle {
                removed.push(session.address);
            } else {
                kept.push(session);
                proof {
                    assert(kept.deep_view() =~= before.push(session.deep_view()));
                }
            }
            i = i + 1;
        }
        proof {
            assert(all.take(i as int) =~= all);
        }
        self.sessions = kept;
        removed
    }

    /// Takes one step of an action from `address`.
    pub fn on_step(&mut self, address: Address, step: &Step, id: &String, seq: SeqNum, now_ms: u64)
        requires
            old(self).wf(),
        ensures
            final(self).wf(),
            final(self)@ == with_step(old(self)@, address, step.deep_view(), id@, seq, now_ms),
    {
        proof {
            lemma_with_step(self@, address, step.deep_view(), id@, seq, now_ms);
        }
        match step {
            Step::Login => {
                let _ = self.login_as(address, id.clone(), seq, now_ms);
            },
            Step::Broadcast(text) => {
                match self.find(address) {
                    Some(at) => {
                        self.sessions[at].client.broadcast = Some(text.clone());
                        proof {
                            assert(final(self)@ =~= with_step(
                                old(self)@,
                                address,
                                step.deep_view(),
                                id@,
                                seq,
                                now_ms,
                            ));
                        }
                    },
                    None => {},
                }
            },
            Step::StopBroadcast => {
                match self.find(address) {
                    Some(at) => {
                        self.sessions[at].client.broadcast = None;
                        proof {
                            assert(final(self)@ =~= with_step(
                                old(self)@,
                                address,
                                step.deep_view(),
                                id@,
                                seq,
                                now_ms,
                            ));
                        }
                    },
                    None => {},
                }
            },
            Step::Heartbeat => {},
            Step::ScheduleManeuver(_) => {},
        }
    }

    /// Takes an action from `address`, with `id` as the id of a session
    /// that a login in it opens.
    pub fn apply_action(&mut self, address: Address, action: &Action<Step>, id: &String, now_ms: u64)
        requires
            old(self).wf(),
        ensures
            final(self).wf(),
            final(self)@ == with_action(old(self)@, address, action.deep_view(), id@, now_ms),
    {
        let ghost steps = action.steps.deep_view();
        let mut i: usize = 0;
        while i < action.steps.len()
            invariant
                0 <= i <= action.steps.len(),
                steps == action.steps.deep_view(),
                self.wf(),
                self@ == with_steps(
                    old(self)@,
                    address,
                    steps.take(i as int),
                    id@,
                    action.seq,
                    now_ms,
                ),
            decreases action.steps.len() - i,
        {
            proof {
                assert(steps.take(i + 1).drop_last() =~= steps.take(i as int));
                assert(steps.take(i + 1).last() == action.steps@[i as int].deep_view());
            }
            self.on_step(address, &action.steps[i], id, action.seq, now_ms);
            i = i + 1;
        }
        proof {
            assert(steps.take(i as int) =~= steps);
        }
        match self.find(address) {
            None => {},
            Some(at) => {
                let ghost mid = self@;
                if self.sessions[at].client.last_action < action.seq {
                    self.sessions[at].client.last_action = action.seq;
                }
                self.sessions[at].client.last_active_ms = now_ms;
                proof {
                    let noted = with_receipt(mid, address, action.seq, now_ms);
                    assert(final(self)@ =~= noted);
                    lemma_with_client(mid, at as int, noted[at as int].client, address);
                }
            },
        }
    }

    /// An action from `address`: a login among its steps opens a session
    /// under a freshly drawn id, unless the address has one; the other
    /// steps and the action's sequence number go to the session of the
    /// address; where it has none, they are ignored.
    pub fn on_action(&mut self, address: Address, action: &Action<Step>, now_ms: u64)
        requires
            old(self).wf(),
        ensures
            final(self).wf(),
            exists|id: Seq<char>|
                #[trigger] is_id(id) && final(self)@ == with_action(
                    old(self)@,
                    address,
                    action.deep_view(),
                    id,
                    now_ms,
                ),
    {
        let id = generate_id();
        self.apply_action(address, action, &id, now_ms);
    }
}

} // verus!
