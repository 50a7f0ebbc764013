//! The action assembler: the client's queue of steps that the server has
//! not confirmed yet. Every action carries the whole queue again, as far as
//! it fits into one datagram, so a lost datagram is made good by the next.
//!
//! A step remembers the sequence number of the last action that carried
//! it, and leaves the queue when a receipt reaches that number: a receipt
//! for an earlier action leaves it queued.

use vstd::prelude::*;
use crate::protocol::action::{Action, ActionView};
use crate::protocol::bytes::MAX_PACKET_SIZE;
use crate::protocol::encode::{
    count_fitting,
    encoding,
    fill_count,
    header_line,
    item_line,
    item_lines,
    lemma_fill_count,
    lemma_fill_count_extend,
    lemma_fill_count_skip,
    lemma_header_directive,
    line_len,
};
use crate::protocol::number::{lemma_decimal_digits_len, SeqNum};
use crate::protocol::step::{Step, StepView};

verus! {

/// The longest header line of an action: the directive, a space, twenty
/// digits and a line feed.
pub const MAX_HEADER_LINE: usize = 28;

/// A step in the queue, and the sequence number of the last action that
/// carried it, if one did.
pub struct PendingStep {
    pub step: StepView,
    pub sent: Option<SeqNum>,
}

/// The assembler as a mathematical value.
pub struct AssemblerView {
    pub next_seq: SeqNum,
    pub pending: Seq<PendingStep>,
}

/// Whether a step fits into an action under any header: only such steps
/// are queued, so that the step at the head of the queue is always sent.
pub open spec fn step_fits(step: StepView) -> bool {
    item_line::<Step>(step).len() + MAX_HEADER_LINE <= MAX_PACKET_SIZE
}

/// Whether `add_step` queues a step: heartbeats are not queued, an action
/// without steps is one.
pub open spec fn is_queued(step: StepView) -> bool {
    !(step is Heartbeat) && step_fits(step)
}

/// The steps of the queue, without their sequence numbers.
pub open spec fn steps_of(pending: Seq<PendingStep>) -> Seq<StepView> {
    Seq::new(pending.len(), |i: int| pending[i].step)
}

/// Whether the server has confirmed an action that carried the step.
pub open spec fn is_confirmed(pending: PendingStep, confirmed: SeqNum) -> bool {
    pending.sent matches Some(seq) && seq <= confirmed
}

/// How many steps an action carries: the longest prefix of the queue that
/// fits into one datagram behind the longest header. The count does not
/// depend on the sequence number, so what one action carried the next one
/// carries again.
pub open spec fn carried(pending: Seq<PendingStep>) -> nat {
    fill_count::<Step>(MAX_HEADER_LINE as int, steps_of(pending))
}

/// What the assembler keeps true of itself: the steps that were sent stand
/// before those that were not, in the order in which they were last sent,
/// with sequence numbers that it has issued; every action carries them
/// again; and every step is one that `add_step` queues.
pub open spec fn valid(m: AssemblerView) -> bool {
    &&& forall|i: int, j: int|
        0 <= i < j < m.pending.len() && m.pending[j].sent is Some ==> m.pending[i].sent is Some
            && m.pending[i].sent->0 <= m.pending[j].sent->0
    &&& forall|i: int|
        0 <= i < m.pending.len() && m.pending[i].sent is Some ==> m.pending[i].sent->0
            < m.next_seq && i < carried(m.pending)
    &&& forall|i: int| 0 <= i < m.pending.len() ==> is_queued(#[trigger] m.pending[i].step)
}

/// The assembler after `add_step`.
pub open spec fn after_add(m: AssemblerView, step: StepView) -> AssemblerView {
    if is_queued(step) {
        AssemblerView {
            next_seq: m.next_seq,
            pending: m.pending.push(PendingStep { step, sent: None }),
        }
    } else {
        m
    }
}

/// The next action: the next sequence number, and the steps it carries.
pub open spec fn next_action(m: AssemblerView) -> ActionView<StepView> {
    ActionView { seq: m.next_seq, steps: steps_of(m.pending).take(carried(m.pending) as int) }
}

/// The assembler after `assemble`: every step that the action carried
/// remembers its sequence number, in place of any earlier one; nothing
/// leaves the queue.
pub open spec fn after_assemble(m: AssemblerView) -> AssemblerView {
    AssemblerView {
        next_seq: (m.next_seq + 1) as SeqNum,
        pending: Seq::new(
            m.pending.len(),
            |i: int|
                if i < carried(m.pending) {
                    PendingStep { step: m.pending[i].step, sent: Some(m.next_seq) }
                } else {
                    m.pending[i]
                },
        ),
    }
}

/// How many steps at the head of the queue are confirmed.
pub open spec fn confirmed_count(pending: Seq<PendingStep>, confirmed: SeqNum) -> nat
    decreases pending.len(),
{
    if pending.len() == 0 {
        0
    } else if is_confirmed(pending[0], confirmed) {
        1 + confirmed_count(pending.drop_first(), confirmed)
    } else {
        0
    }
}

/// The assembler after `process_receipt`: the confirmed steps at the head
/// of the queue are gone.
pub open spec fn after_receipt(m: AssemblerView, confirmed: SeqNum) -> AssemblerView {
    AssemblerView {
        next_seq: m.next_seq,
        pending: m.pending.skip(confirmed_count(m.pending, confirmed) as int),
    }
}

/// The count of confirmed steps is the one index before which every step
/// is confirmed and at which none is.
pub proof fn lemma_confirmed_count(pending: Seq<PendingStep>, confirmed: SeqNum, k: int)
    requires
        0 <= k <= pending.len(),
        forall|i: int| 0 <= i < k ==> is_confirmed(pending[i], confirmed),
        k < pending.len() ==> !is_confirmed(pending[k], confirmed),
    ensures
        confirmed_count(pending, confirmed) == k,
    decreases pending.len(),
{
    if pending.len() != 0 && k != 0 {
        let rest = pending.drop_first();
        assert(is_confirmed(pending[0], confirmed));
        assert forall|i: int| 0 <= i < k - 1 implies is_confirmed(rest[i], confirmed) by {
            assert(rest[i] == pending[i + 1]);
        }
        if k - 1 < rest.len() {
            assert(rest[k - 1] == pending[k]);
        }
        lemma_confirmed_count(rest, confirmed, k - 1);
    }
}

/// The count of confirmed steps is in range; every step before it is
/// confirmed, and the step at it is not.
pub proof fn lemma_confirmed_count_bounds(pending: Seq<PendingStep>, confirmed: SeqNum)
    ensures
        confirmed_count(pending, confirmed) <= pending.len(),
        forall|i: int|
            0 <= i < confirmed_count(pending, confirmed) ==> is_confirmed(pending[i], confirmed),
        confirmed_count(pending, confirmed) < pending.len() ==> !is_confirmed(
            pending[confirmed_count(pending, confirmed) as int],
            confirmed,
        ),
    decreases pending.len(),
{
    if pending.len() != 0 && is_confirmed(pending[0], confirmed) {
        let rest = pending.drop_first();
        lemma_confirmed_count_bounds(rest, confirmed);
        assert forall|i: int| 0 <= i < confirmed_count(pending, confirmed) implies is_confirmed(
            pending[i],
            confirmed,
        ) by {
            if i > 0 {
                assert(pending[i] == rest[i - 1]);
            }
        }
        if confirmed_count(pending, confirmed) < pending.len() {
            assert(pending[confirmed_count(pending, confirmed) as int] == rest[confirmed_count(
                rest,
                confirmed,
            ) as int]);
        }
    }
}

/// Adding a step keeps the assembler valid.
pub proof fn lemma_add_valid(m: AssemblerView, step: StepView)
    requires
        valid(m),
    ensures
        valid(after_add(m, step)),
{
    if is_queued(step) {
        let after = after_add(m, step);
        let entry = PendingStep { step, sent: None };
        assert(steps_of(after.pending) =~= steps_of(m.pending) + seq![step]);
        lemma_fill_count_extend::<Step>(MAX_HEADER_LINE as int, steps_of(m.pending), seq![step]);
        assert forall|i: int| 0 <= i < after.pending.len() implies is_queued(
            #[trigger] after.pending[i].step,
        ) by {
            if i < m.pending.len() {
                assert(is_queued(m.pending[i].step));
            }
        }
    }
}

/// A receipt removes every confirmed step, and only such: what stays is
/// the queue behind the confirmed steps, and none of it is confirmed.
pub proof fn lemma_receipt_removes_confirmed(m: AssemblerView, confirmed: SeqNum)
    requires
        valid(m),
    ensures
        valid(after_receipt(m, confirmed)),
        forall|i: int|
            0 <= i < after_receipt(m, confirmed).pending.len() ==> !is_confirmed(
                #[trigger] after_receipt(m, confirmed).pending[i],
                confirmed,
            ),
        forall|i: int|
            0 <= i < m.pending.len() - after_receipt(m, confirmed).pending.len()
                ==> is_confirmed(#[trigger] m.pending[i], confirmed),
{
    let k = confirmed_count(m.pending, confirmed) as int;
    lemma_confirmed_count_bounds(m.pending, confirmed);
    let after = after_receipt(m, confirmed);
    assert forall|i: int| 0 <= i < after.pending.len() implies !is_confirmed(
        #[trigger] after.pending[i],
        confirmed,
    ) by {
        assert(after.pending[i] == m.pending[k + i]);
        if i > 0 && is_confirmed(m.pending[k + i], confirmed) {
            assert(m.pending[k].sent is Some && m.pending[k].sent->0 <= m.pending[k + i].sent->0);
        }
    }
    assert forall|i: int, j: int|
        0 <= i < j < after.pending.len()
            && after.pending[j].sent is Some implies after.pending[i].sent is Some
        && after.pending[i].sent->0 <= after.pending[j].sent->0 by {
        assert(after.pending[i] == m.pending[k + i]);
        assert(after.pending[j] == m.pending[k + j]);
    }
    assert forall|i: int| 0 <= i < after.pending.len() implies is_queued(
        #[trigger] after.pending[i].step,
    ) by {
        assert(after.pending[i] == m.pending[k + i]);
        assert(is_queued(m.pending[k + i].step));
    }
    assert(steps_of(after.pending) =~= steps_of(m.pending).skip(k));
    if k > 0 {
        assert(is_confirmed(m.pending[k - 1], confirmed));
        assert(k - 1 < carried(m.pending));
        lemma_fill_count_skip::<Step>(MAX_HEADER_LINE as int, steps_of(m.pending), k);
    } else {
        assert(steps_of(m.pending).skip(0) =~= steps_of(m.pending));
    }
    assert forall|i: int|
        0 <= i < after.pending.len()
            && after.pending[i].sent is Some implies after.pending[i].sent->0 < after.next_seq
        && i < carried(after.pending) by {
        assert(after.pending[i] == m.pending[k + i]);
    }
}

/// Idempotence: a receipt for a sequence number that was already processed
/// changes nothing.
pub proof fn lemma_receipt_idempotent(m: AssemblerView, confirmed: SeqNum)
    requires
        valid(m),
    ensures
        after_receipt(after_receipt(m, confirmed), confirmed) == after_receipt(m, confirmed),
{
    lemma_receipt_stale(m, confirmed, confirmed);
}

/// A receipt for a sequence number no higher than one already processed
/// changes nothing: receipts may arrive twice, or late.
pub proof fn lemma_receipt_stale(m: AssemblerView, confirmed: SeqNum, earlier: SeqNum)
    requires
        valid(m),
        earlier <= confirmed,
    ensures
        after_receipt(after_receipt(m, confirmed), earlier) == after_receipt(m, confirmed),
{
    let once = after_receipt(m, confirmed);
    lemma_receipt_removes_confirmed(m, confirmed);
    if once.pending.len() > 0 {
        assert(!is_confirmed(once.pending[0], confirmed));
    }
    lemma_confirmed_count(once.pending, earlier, 0);
    assert(once.pending.skip(0) =~= once.pending);
}

/// The next action carries the step at the head of the queue, and fits
/// into one datagram.
pub proof fn lemma_next_action(m: AssemblerView)
    requires
        valid(m),
    ensures
        carried(m.pending) <= m.pending.len(),
        m.pending.len() > 0 ==> carried(m.pending) >= 1,
        encoding::<SeqNum, Step>(next_action(m).seq, next_action(m).steps).len()
            <= MAX_PACKET_SIZE,
{
    let steps = steps_of(m.pending);
    let used = header_line::<SeqNum>(m.next_seq).len() as int;
    lemma_decimal_digits_len(m.next_seq as nat);
    lemma_header_directive();
    assert(used <= MAX_HEADER_LINE);
    lemma_fill_count::<Step>(MAX_HEADER_LINE as int, steps);
    if m.pending.len() > 0 {
        assert(is_queued(m.pending[0].step));
        assert(steps[0] == m.pending[0].step);
    }
    let k = carried(m.pending) as int;
    if k > 0 {
        assert(MAX_HEADER_LINE + item_lines::<Step>(steps.take(k)).len() <= MAX_PACKET_SIZE);
    } else {
        assert(steps.take(0) =~= Seq::<StepView>::empty());
    }
}

/// Assembling keeps the assembler valid.
pub proof fn lemma_assemble_valid(m: AssemblerView)
    requires
        valid(m),
        m.next_seq < u64::MAX,
    ensures
        valid(after_assemble(m)),
{
    let after = after_assemble(m);
    lemma_next_action(m);
    assert(steps_of(after.pending) =~= steps_of(m.pending));
    assert forall|i: int, j: int|
        0 <= i < j < after.pending.len()
            && after.pending[j].sent is Some implies after.pending[i].sent is Some
        && after.pending[i].sent->0 <= after.pending[j].sent->0 by {
        if j >= carried(m.pending) {
            assert(m.pending[j].sent is Some);
        }
    }
    assert forall|i: int| 0 <= i < after.pending.len() implies is_queued(
        #[trigger] after.pending[i].step,
    ) by {
        assert(is_queued(m.pending[i].step));
    }
}

/// Delivery: once the server confirms an action, or any later one, every
/// step that the action carried has left the queue, and every step that it
/// did not carry is still there, unsent. A queue that the action carried
/// whole is empty then.
pub proof fn lemma_confirmed_action_is_pruned(m: AssemblerView, confirmed: SeqNum)
    requires
        valid(m),
        m.next_seq < u64::MAX,
        confirmed >= m.next_seq,
    ensures
        after_receipt(after_assemble(m), confirmed).pending == m.pending.skip(
            carried(m.pending) as int,
        ),
        forall|i: int|
            carried(m.pending) <= i < m.pending.len() ==> (#[trigger] m.pending[i]).sent is None,
        carried(m.pending) == m.pending.len() ==> after_receipt(
            after_assemble(m),
            confirmed,
        ).pending.len() == 0,
{
    let after = after_assemble(m);
    let k = carried(m.pending) as int;
    lemma_next_action(m);
    lemma_confirmed_count(after.pending, confirmed, k);
    assert(after.pending.skip(k) =~= m.pending.skip(k));
}

/// Retry: while no receipt reaches the sequence number under which a step
/// was last sent, the step stays in the queue, and the next action carries
/// it again.
pub proof fn lemma_unconfirmed_step_is_resent(m: AssemblerView, confirmed: SeqNum, i: int)
    requires
        valid(m),
        0 <= i < m.pending.len(),
        m.pending[i].sent matches Some(seq) && confirmed < seq,
    ensures
        ({
            let after = after_receipt(m, confirmed);
            let k = m.pending.len() - after.pending.len();
            &&& k <= i
            &&& after.pending[i - k] == m.pending[i]
            &&& i - k < next_action(after).steps.len()
            &&& next_action(after).steps[i - k] == m.pending[i].step
        }),
{
    let after = after_receipt(m, confirmed);
    lemma_confirmed_count_bounds(m.pending, confirmed);
    lemma_receipt_removes_confirmed(m, confirmed);
    let k = confirmed_count(m.pending, confirmed) as int;
    if k > i {
        assert(is_confirmed(m.pending[i], confirmed));
    }
    assert(after.pending[i - k] == m.pending[k + (i - k)]);
    assert(after.pending[i - k].sent is Some);
    assert(i - k < carried(after.pending));
    lemma_next_action(after);
    let steps = steps_of(after.pending);
    assert(steps.take(carried(after.pending) as int)[i - k] == steps[i - k]);
}

/// The assembler after `times` actions in a row, with no receipt and no
/// new step in between.
pub open spec fn after_assembles(m: AssemblerView, times: nat) -> AssemblerView
    decreases times,
{
    if times == 0 {
        m
    } else {
        after_assemble(after_assembles(m, (times - 1) as nat))
    }
}

/// One round trip without loss in which the receipt arrives before the
/// next action is sent.
pub open spec fn after_round(m: AssemblerView) -> AssemblerView {
    after_receipt(after_assemble(m), m.next_seq)
}

/// The assembler after `rounds` such round trips.
pub open spec fn after_rounds(m: AssemblerView, rounds: nat) -> AssemblerView
    decreases rounds,
{
    if rounds == 0 {
        m
    } else {
        after_round(after_rounds(m, (rounds - 1) as nat))
    }
}

/// Actions in a row all carry the same steps, and each gives them its own
/// sequence number: after them the carried steps remember the last.
pub proof fn lemma_assembles(m: AssemblerView, times: nat)
    requires
        valid(m),
        m.next_seq + times <= u64::MAX,
    ensures
        valid(after_assembles(m, times)),
        after_assembles(m, times).next_seq == m.next_seq + times,
        steps_of(after_assembles(m, times).pending) == steps_of(m.pending),
        times >= 1 ==> after_assembles(m, times).pending == Seq::new(
            m.pending.len(),
            |i: int|
                if i < carried(m.pending) {
                    PendingStep {
                        step: m.pending[i].step,
                        sent: Some((m.next_seq + times - 1) as SeqNum),
                    }
                } else {
                    m.pending[i]
                },
        ),
        times >= 1 ==> next_action(after_assembles(m, (times - 1) as nat)).steps == next_action(
            m,
        ).steps,
    decreases times,
{
    if times >= 1 {
        let before = after_assembles(m, (times - 1) as nat);
        lemma_assembles(m, (times - 1) as nat);
        lemma_assemble_valid(before);
        let after = after_assemble(before);
        assert(steps_of(after.pending) =~= steps_of(before.pending));
        assert(after.pending =~= Seq::new(
            m.pending.len(),
            |i: int|
                if i < carried(m.pending) {
                    PendingStep {
                        step: m.pending[i].step,
                        sent: Some((m.next_seq + times - 1) as SeqNum),
                    }
                } else {
                    m.pending[i]
                },
        )) by {
            assert(before.pending.len() == m.pending.len());
            assert forall|i: int| 0 <= i < m.pending.len() implies before.pending[i].step
                == m.pending[i].step by {
                assert(steps_of(before.pending)[i] == steps_of(m.pending)[i]);
            }
        }
    }
}

/// A round trip with a prompt receipt takes every step that the action
/// carried out of the queue, and no other; the action carried at least the
/// step at the head of the queue.
pub proof fn lemma_round(m: AssemblerView)
    requires
        valid(m),
        m.next_seq < u64::MAX,
    ensures
        valid(after_round(m)),
        after_round(m).next_seq == m.next_seq + 1,
        after_round(m).pending == m.pending.skip(carried(m.pending) as int),
        carried(m.pending) <= m.pending.len(),
        m.pending.len() > 0 ==> carried(m.pending) >= 1,
{
    lemma_assemble_valid(m);
    lemma_next_action(m);
    lemma_receipt_removes_confirmed(after_assemble(m), m.next_seq);
    lemma_confirmed_action_is_pruned(m, m.next_seq);
}

/// Delivery without loss: where every receipt arrives before the next
/// action is sent, as many round trips as there are steps in the queue
/// empty the queue, if no step is added meanwhile.
pub proof fn lemma_rounds_empty_the_queue(m: AssemblerView, rounds: nat)
    requires
        valid(m),
        m.next_seq + rounds <= u64::MAX,
    ensures
        valid(after_rounds(m, rounds)),
        after_rounds(m, rounds).next_seq == m.next_seq + rounds,
        after_rounds(m, rounds).pending.len() <= m.pending.len(),
        after_rounds(m, rounds).pending.len() <= m.pending.len() - rounds || after_rounds(
            m,
            rounds,
        ).pending.len() == 0,
        rounds >= m.pending.len() ==> after_rounds(m, rounds).pending.len() == 0,
    decreases rounds,
{
    if rounds >= 1 {
        let before = after_rounds(m, (rounds - 1) as nat);
        lemma_rounds_empty_the_queue(m, (rounds - 1) as nat);
        lemma_round(before);
    }
}

/// A late receipt: where more actions went out before the receipt for the
/// first of them arrives, that receipt removes nothing, for the steps
/// remember the last action. Only the receipt for the last action that
/// carried a step takes the step out of the queue.
pub proof fn lemma_late_receipt_removes_nothing(m: AssemblerView, times: nat, confirmed: SeqNum)
    requires
        valid(m),
        times >= 1,
        m.next_seq + times <= u64::MAX,
        confirmed < m.next_seq + times - 1,
    ensures
        after_receipt(after_assembles(m, times), confirmed) == after_assembles(m, times),
{
    let sent = after_assembles(m, times);
    lemma_assembles(m, times);
    lemma_next_action(m);
    if sent.pending.len() > 0 {
        if carried(m.pending) == 0 {
            assert(sent.pending[0] == m.pending[0]);
            assert(m.pending[0].sent is None);
        }
        assert(!is_confirmed(sent.pending[0], confirmed));
    }
    lemma_confirmed_count(sent.pending, confirmed, 0);
    assert(sent.pending.skip(0) =~= sent.pending);
}

/// Once only: where each receipt arrives before the next action is sent,
/// the actions of successive round trips carry successive parts of the
/// queue, so that each step travels in exactly one action.
pub proof fn lemma_prompt_receipts_send_once(m: AssemblerView)
    requires
        valid(m),
        m.next_seq + 2 <= u64::MAX,
    ensures
        next_action(m).steps + steps_of(after_round(m).pending) == steps_of(m.pending),
        next_action(after_round(m)).steps == steps_of(m.pending).skip(
            carried(m.pending) as int,
        ).take(carried(after_round(m).pending) as int),
{
    lemma_round(m);
    let k = carried(m.pending) as int;
    let after = after_round(m);
    assert(steps_of(after.pending) =~= steps_of(m.pending).skip(k));
    assert(steps_of(m.pending).take(k) + steps_of(m.pending).skip(k) =~= steps_of(m.pending));
}

/// The client's queue of unconfirmed steps and its counter of sequence
/// numbers.
pub struct ActionAssembler {
    next_seq: SeqNum,
    steps: Vec<Step>,
    sent: Vec<SeqNum>,
}

impl View for ActionAssembler {
    type V = AssemblerView;

    closed spec fn view(&self) -> AssemblerView {
        AssemblerView {
            next_seq: self.next_seq,
            pending: Seq::new(
                self.steps@.len(),
                |i: int|
                    PendingStep {
                        step: self.steps@[i].deep_view(),
                        sent: if i < self.sent@.len() {
                            Some(self.sent@[i])
                        } else {
                            None
                        },
                    },
            ),
        }
    }
}

impl ActionAssembler {
    /// Whether the assembler is in a state that its own methods lead to.
    pub closed spec fn wf(&self) -> bool {
        self.sent@.len() <= self.steps@.len() && valid(self@)
    }

    /// A well-formed assembler is valid, so the laws above hold of it.
    pub proof fn lemma_wf(&self)
        requires
            self.wf(),
        ensures
            valid(self@),
    {
    }

    /// An assembler with an empty queue, which counts from zero.
    pub fn new() -> (assembler: ActionAssembler)
        ensures
            assembler.wf(),
            assembler@ == (AssemblerView { next_seq: 0, pending: Seq::empty() }),
    {
        let assembler = ActionAssembler { next_seq: 0, steps: Vec::new(), sent: Vec::new() };
        proof {
            assert(assembler@.pending =~= Seq::<PendingStep>::empty());
        }
        assembler
    }

    /// The sequence number of the next action.
    pub fn next_seq(&self) -> (seq: SeqNum)
        ensures
            seq == self@.next_seq,
    {
        self.next_seq
    }

    /// How many steps wait for their confirmation.
    pub fn pending_len(&self) -> (len: usize)
        ensures
            len == self@.pending.len(),
    {
        self.steps.len()
    }

    /// Queues a step behind the others; nothing is sent yet. A heartbeat is
    /// not queued, and neither is a step too long for any action: the
    /// result says whether the step was queued.
    pub fn add_step(&mut self, step: Step) -> (queued: bool)
        requires
            old(self).wf(),
        ensures
            final(self).wf(),
            queued == is_queued(step.deep_view()),
            final(self)@ == after_add(old(self)@, step.deep_view()),
    {
        proof {
            lemma_add_valid(self@, step.deep_view());
        }
        let fits = match step {
            Step::Heartbeat => false,
            _ => line_len(&step) <= MAX_PACKET_SIZE - MAX_HEADER_LINE,
        };
        if fits {
            self.steps.push(step);
            proof {
                assert(final(self)@.pending =~= after_add(old(self)@, step.deep_view()).pending);
            }
        }
        fits
    }

    /// Assembles the next action: it has the next sequence number and
    /// carries the queue from its head, as far as that fits into one
    /// datagram. The steps stay queued until a receipt confirms them.
    pub fn assemble(&mut self) -> (action: Action<Step>)
        requires
            old(self).wf(),
            old(self)@.next_seq < u64::MAX,
        ensures
            final(self).wf(),
            action.deep_view() == next_action(old(self)@),
            final(self)@ == after_assemble(old(self)@),
            encoding::<SeqNum, Step>(action.seq, action.steps.deep_view()).len()
                <= MAX_PACKET_SIZE,
    {
        proof {
            lemma_next_action(self@);
            lemma_assemble_valid(self@);
            assert(self.steps.deep_view() =~= steps_of(self@.pending));
            assert(self.steps.deep_view().skip(0) =~= self.steps.deep_view());
        }
        let seq = self.next_seq;
        let count = count_fitting(MAX_HEADER_LINE, &self.steps, 0);
        let mut steps: Vec<Step> = Vec::new();
        let mut i: usize = 0;
        while i < count
            invariant
                0 <= i <= count <= self.steps.len(),
                steps.deep_view() =~= self.steps.deep_view().take(i as int),
            decreases count - i,
        {
            let ghost prior = steps.deep_view();
            let step = self.steps[i].clone();
            steps.push(step);
            proof {
                assert(steps.deep_view() =~= prior.push(self.steps@[i as int].deep_view()));
                assert(self.steps.deep_view().take(i + 1) =~= self.steps.deep_view().take(
                    i as int,
                ).push(self.steps@[i as int].deep_view()));
            }
            i = i + 1;
        }
        self.sent.clear();
        while self.sent.len() < count
            invariant
                self.steps == old(self).steps,
                self.next_seq == old(self).next_seq,
                self.sent@.len() <= count,
                forall|j: int| 0 <= j < self.sent@.len() ==> self.sent@[j] == seq,
            decreases count - self.sent.len(),
        {
            self.sent.push(seq);
        }
        self.next_seq = seq + 1;
        proof {
            assert(final(self)@.pending =~= after_assemble(old(self)@).pending);
        }
        Action { seq, steps }
    }

    /// Processes a receipt: every step that an action up to `confirmed`
    /// carried leaves the queue.
    pub fn process_receipt(&mut self, confirmed: SeqNum)
        requires
            old(self).wf(),
        ensures
            final(self).wf(),
            final(self)@ == after_receipt(old(self)@, confirmed),
    {
        let mut k: usize = 0;
        while k < self.sent.len() && self.sent[k] <= confirmed
            invariant
                0 <= k <= self.sent.len(),
                forall|i: int| 0 <= i < k ==> self.sent@[i] <= confirmed,
            decreases self.sent.len() - k,
        {
            k = k + 1;
        }
        proof {
            lemma_confirmed_count(self@.pending, confirmed, k as int);
            lemma_receipt_removes_confirmed(self@, confirmed);
        }
        let steps = self.steps.split_off(k);
        let sent = self.sent.split_off(k);
        self.steps = steps;
        self.sent = sent;
        proof {
            assert(final(self)@.pending =~= after_receipt(old(self)@, confirmed).pending);
        }
    }
}

} // verus!
