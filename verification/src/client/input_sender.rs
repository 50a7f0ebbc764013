//! Sending input at a steady pace: the latest input is kept, and sent when
//! the period since the last sending is over.

use vstd::prelude::*;
use crate::client::platform::Input;
use crate::clock::{precise_time_ns, NS_PER_MS};

verus! {

/// The input that waits to be sent, and the time from which it may be.
pub struct InputSender {
    /// The time of the next sending, in nanoseconds.
    pub time_of_next_send: u64,
    /// The latest input.
    pub input_to_send: Input,
}

/// The time of the sending after one at `now_ns`: a period later, or never
/// where that time is more than the clock can say.
pub open spec fn next_send(now_ns: u64, period_in_ms: u64) -> u64 {
    if now_ns + period_in_ms * NS_PER_MS <= u64::MAX {
        (now_ns + period_in_ms * NS_PER_MS) as u64
    } else {
        u64::MAX
    }
}

/// Whether an input is sent at `now_ns`.
pub open spec fn is_due(time_of_next_send: u64, now_ns: u64) -> bool {
    now_ns >= time_of_next_send
}

impl InputSender {
    /// A sender that sends at once, and has no input yet.
    pub fn new() -> (sender: InputSender)
        ensures
            sender.time_of_next_send == 0,
            sender.input_to_send.broadcast is None,
    {
        InputSender { time_of_next_send: 0, input_to_send: Input::new() }
    }

    /// Takes the input of a tick at the time `now_ns`. The input replaces
    /// the one kept. It is returned, to be sent, where the time of the next
    /// sending has come; the next sending is then a period later.
    pub fn update_at(&mut self, input: Input, now_ns: u64, period_in_ms: u64) -> (send: Option<
        Input,
    >)
        ensures
            final(self).input_to_send.broadcast.deep_view() == input.broadcast.deep_view(),
            is_due(old(self).time_of_next_send, now_ns) ==> send is Some && send->0.broadcast
                == input.broadcast && final(self).time_of_next_send == next_send(
                now_ns,
                period_in_ms,
            ),
            !is_due(old(self).time_of_next_send, now_ns) ==> send is None
                && final(self).time_of_next_send == old(self).time_of_next_send,
    {
        self.input_to_send = input.clone();
        if now_ns >= self.time_of_next_send {
            self.time_of_next_send = match period_in_ms.checked_mul(NS_PER_MS) {
                Some(period) => match now_ns.checked_add(period) {
                    Some(next) => next,
                    None => u64::MAX,
                },
                None => u64::MAX,
            };
            Some(input)
        } else {
            None
        }
    }

    /// Takes the input of a tick at the time that the clock says. Whatever
    /// that time is: where an input is returned, it is the one given, and a
    /// sender that has not sent yet sends at once.
    pub fn update(&mut self, input: Input, period_in_ms: u64) -> (send: Option<Input>)
        ensures
            final(self).input_to_send.broadcast.deep_view() == input.broadcast.deep_view(),
            send is Some ==> send->0.broadcast == input.broadcast,
            send is None ==> final(self).time_of_next_send == old(self).time_of_next_send,
            old(self).time_of_next_send == 0 ==> send is Some && send->0.broadcast
                == input.broadcast,
            send is Some ==> final(self).time_of_next_send >= old(self).time_of_next_send,
    {
        let now_ns = precise_time_ns();
        self.update_at(input, now_ns, period_in_ms)
    }
}

} // verus!
