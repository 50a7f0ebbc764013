//! Steps: what a client asks of the server.

use vstd::prelude::*;
use vstd::slice::slice_subrange;
use vstd::utf8::valid_utf8;
use crate::protocol::bytes::{
    find,
    is_ascii_bytes,
    lemma_ascii_is_utf8,
    lemma_position_absent,
    lemma_position_concat,
    position,
    LF,
    SP,
};
use crate::protocol::part::Part;
use crate::protocol::text::{lemma_text_token, read_text, text_of, text_token, write_text};

verus! {

/// One thing that a client asks of the server.
#[derive(Debug, PartialEq, Eq)]
pub enum Step {
    /// Open a session for the sender's address.
    Login,
    /// Start broadcasting the text, in place of any earlier broadcast.
    Broadcast(String),
    /// Stop broadcasting.
    StopBroadcast,
    /// Nothing but a sign of life.
    Heartbeat,
    /// Schedule the maneuver that the text describes.
    ScheduleManeuver(String),
}

/// A step as a mathematical value.
pub enum StepView {
    Login,
    Broadcast(Seq<char>),
    StopBroadcast,
    Heartbeat,
    ScheduleManeuver(Seq<char>),
}

impl DeepView for Step {
    type V = StepView;

    open spec fn deep_view(&self) -> StepView {
        match self {
            Step::Login => StepView::Login,
            Step::Broadcast(text) => StepView::Broadcast(text@),
            Step::StopBroadcast => StepView::StopBroadcast,
            Step::Heartbeat => StepView::Heartbeat,
            Step::ScheduleManeuver(data) => StepView::ScheduleManeuver(data@),
        }
    }
}

impl Clone for Step {
    fn clone(&self) -> (copy: Step)
        ensures
            copy.deep_view() == self.deep_view(),
    {
        match self {
            Step::Login => Step::Login,
            Step::Broadcast(text) => Step::Broadcast(text.clone()),
            Step::StopBroadcast => Step::StopBroadcast,
            Step::Heartbeat => Step::Heartbeat,
            Step::ScheduleManeuver(data) => Step::ScheduleManeuver(data.clone()),
        }
    }
}

/// The keyword `LOGIN`.
pub open spec fn word_login() -> Seq<u8> {
    seq![0x4cu8, 0x4fu8, 0x47u8, 0x49u8, 0x4eu8]
}

/// The keyword `BROADCAST`.
pub open spec fn word_broadcast() -> Seq<u8> {
    seq![0x42u8, 0x52u8, 0x4fu8, 0x41u8, 0x44u8, 0x43u8, 0x41u8, 0x53u8, 0x54u8]
}

/// The keyword `STOP_BROADCAST`.
pub open spec fn word_stop_broadcast() -> Seq<u8> {
    seq![0x53u8, 0x54u8, 0x4fu8, 0x50u8, 0x5fu8, 0x42u8, 0x52u8, 0x4fu8, 0x41u8, 0x44u8, 0x43u8, 0x41u8, 0x53u8, 0x54u8]
}

/// The keyword `HEARTBEAT`.
pub open spec fn word_heartbeat() -> Seq<u8> {
    seq![0x48u8, 0x45u8, 0x41u8, 0x52u8, 0x54u8, 0x42u8, 0x45u8, 0x41u8, 0x54u8]
}

/// The keyword `MANEUVER`.
pub open spec fn word_maneuver() -> Seq<u8> {
    seq![0x4du8, 0x41u8, 0x4eu8, 0x45u8, 0x55u8, 0x56u8, 0x45u8, 0x52u8]
}

/// A keyword: capital letters and underscores.
pub open spec fn is_word(s: Seq<u8>) -> bool {
    forall|i: int| 0 <= i < s.len() ==> 0x41 <= #[trigger] s[i] <= 0x5f
}

/// A keyword is ASCII and holds neither a space nor a line feed.
pub proof fn lemma_word_is_plain(s: Seq<u8>)
    requires
        is_word(s),
    ensures
        is_ascii_bytes(s),
        valid_utf8(s),
        !s.contains(SP),
        !s.contains(LF),
        position(s, SP) == s.len(),
{
    assert forall|i: int| 0 <= i < s.len() implies #[trigger] s[i] < 0x80 by {
        assert(0x41 <= s[i] <= 0x5f);
    }
    lemma_ascii_is_utf8(s);
    if s.contains(SP) {
        let i = choose|i: int| 0 <= i < s.len() && s[i] == SP;
        assert(0x41 <= s[i] <= 0x5f);
    }
    if s.contains(LF) {
        let i = choose|i: int| 0 <= i < s.len() && s[i] == LF;
        assert(0x41 <= s[i] <= 0x5f);
    }
    lemma_position_absent(s, SP);
}

/// A keyword followed by a space and a text's token.
pub open spec fn word_with_text(word: Seq<u8>, text: Seq<char>) -> Seq<u8> {
    word + seq![SP] + text_token(text)
}

/// The payload that stands for a step.
pub open spec fn step_wire(step: StepView) -> Seq<u8> {
    match step {
        StepView::Login => word_login(),
        StepView::Broadcast(text) => word_with_text(word_broadcast(), text),
        StepView::StopBroadcast => word_stop_broadcast(),
        StepView::Heartbeat => word_heartbeat(),
        StepView::ScheduleManeuver(data) => word_with_text(word_maneuver(), data),
    }
}

/// The step that a payload stands for: a keyword alone, or a keyword, one
/// space and a text's token.
pub open spec fn step_parse(payload: Seq<u8>) -> Option<StepView> {
    let at = position(payload, SP);
    let word = payload.take(at);
    if at >= payload.len() {
        if word == word_login() {
            Some(StepView::Login)
        } else if word == word_stop_broadcast() {
            Some(StepView::StopBroadcast)
        } else if word == word_heartbeat() {
            Some(StepView::Heartbeat)
        } else {
            None
        }
    } else {
        match text_of(payload.skip(at + 1)) {
            None => None,
            Some(text) => if word == word_broadcast() {
                Some(StepView::Broadcast(text))
            } else if word == word_maneuver() {
                Some(StepView::ScheduleManeuver(text))
            } else {
                None
            },
        }
    }
}

/// How a keyword with a text is taken apart again.
pub proof fn lemma_word_with_text(word: Seq<u8>, text: Seq<char>)
    requires
        is_word(word),
    ensures
        position(word_with_text(word, text), SP) == word.len(),
        word.len() < word_with_text(word, text).len(),
        word_with_text(word, text).take(word.len() as int) == word,
        word_with_text(word, text).skip(word.len() as int + 1) == text_token(text),
        valid_utf8(word_with_text(word, text)),
        !word_with_text(word, text).contains(LF),
{
    let token = text_token(text);
    let all = word_with_text(word, text);
    lemma_word_is_plain(word);
    lemma_text_token(text);
    assert(all =~= word + (seq![SP] + token));
    lemma_position_concat(word, seq![SP] + token, SP);
    assert(position(seq![SP] + token, SP) == 0);
    assert(all.take(word.len() as int) =~= word);
    assert(all.skip(word.len() as int + 1) =~= token);
    let head = word + seq![SP];
    assert(is_ascii_bytes(head));
    lemma_ascii_is_utf8(head);
    vstd::utf8::valid_utf8_concat(head, token);
    if all.contains(LF) {
        let i = choose|i: int| 0 <= i < all.len() && all[i] == LF;
        if i < word.len() {
            assert(word.contains(word[i]));
        } else if i > word.len() {
            assert(token.contains(token[i - word.len() - 1]));
        }
    }
}

/// Whether two byte strings are equal.
pub fn same_bytes(a: &[u8], b: &[u8]) -> (same: bool)
    ensures
        same == (a@ == b@),
{
    if a.len() != b.len() {
        return false;
    }
    let mut i: usize = 0;
    while i < a.len()
        invariant
            a.len() == b.len(),
            0 <= i <= a.len(),
            forall|j: int| 0 <= j < i ==> a@[j] == b@[j],
        decreases a.len() - i,
    {
        if a[i] != b[i] {
            return false;
        }
        i = i + 1;
    }
    proof {
        assert(a@ =~= b@);
    }
    true
}

/// The keyword `LOGIN`, as bytes.
pub fn login_word() -> (word: [u8; 5])
    ensures
        word@ == word_login(),
{
    let word: [u8; 5] = [0x4c, 0x4f, 0x47, 0x49, 0x4e];
    proof {
        assert(word@ =~= word_login());
    }
    word
}

/// The keyword `BROADCAST`, as bytes.
pub fn broadcast_word() -> (word: [u8; 9])
    ensures
        word@ == word_broadcast(),
{
    let word: [u8; 9] = [0x42, 0x52, 0x4f, 0x41, 0x44, 0x43, 0x41, 0x53, 0x54];
    proof {
        assert(word@ =~= word_broadcast());
    }
    word
}

/// The keyword `STOP_BROADCAST`, as bytes.
pub fn stop_broadcast_word() -> (word: [u8; 14])
    ensures
        word@ == word_stop_broadcast(),
{
    let word: [u8; 14] = [
        0x53,
        0x54,
        0x4f,
        0x50,
        0x5f,
        0x42,
        0x52,
        0x4f,
        0x41,
        0x44,
        0x43,
        0x41,
        0x53,
        0x54,
    ];
    proof {
        assert(word@ =~= word_stop_broadcast());
    }
    word
}

/// The keyword `HEARTBEAT`, as bytes.
pub fn heartbeat_word() -> (word: [u8; 9])
    ensures
        word@ == word_heartbeat(),
{
    let word: [u8; 9] = [0x48, 0x45, 0x41, 0x52, 0x54, 0x42, 0x45, 0x41, 0x54];
    proof {
        assert(word@ =~= word_heartbeat());
    }
    word
}

/// The keyword `MANEUVER`, as bytes.
pub fn maneuver_word() -> (word: [u8; 8])
    ensures
        word@ == word_maneuver(),
{
    let word: [u8; 8] = [0x4d, 0x41, 0x4e, 0x45, 0x55, 0x56, 0x45, 0x52];
    proof {
        assert(word@ =~= word_maneuver());
    }
    word
}

impl Part for Step {
    open spec fn wire(v: StepView) -> Seq<u8> {
        step_wire(v)
    }

    open spec fn parse(payload: Seq<u8>) -> Option<StepView> {
        step_parse(payload)
    }

    proof fn lemma_wire_is_text(v: StepView) {
        match v {
            StepView::Login => lemma_word_is_plain(word_login()),
            StepView::Broadcast(text) => lemma_word_with_text(word_broadcast(), text),
            StepView::StopBroadcast => lemma_word_is_plain(word_stop_broadcast()),
            StepView::Heartbeat => lemma_word_is_plain(word_heartbeat()),
            StepView::ScheduleManeuver(data) => lemma_word_with_text(word_maneuver(), data),
        }
    }

    proof fn lemma_parse_wire(v: StepView) {
        let payload = step_wire(v);
        match v {
            StepView::Login => {
                lemma_word_is_plain(payload);
                assert(payload.take(payload.len() as int) =~= payload);
            },
            StepView::Broadcast(text) => {
                lemma_word_with_text(word_broadcast(), text);
                lemma_text_token(text);
                assert(word_broadcast()[0] != word_maneuver()[0]);
            },
            StepView::StopBroadcast => {
                lemma_word_is_plain(payload);
                assert(payload.take(payload.len() as int) =~= payload);
                assert(payload.len() != word_login().len());
            },
            StepView::Heartbeat => {
                lemma_word_is_plain(payload);
                assert(payload.take(payload.len() as int) =~= payload);
                assert(payload.len() != word_login().len());
                assert(payload.len() != word_stop_broadcast().len());
            },
            StepView::ScheduleManeuver(data) => {
                lemma_word_with_text(word_maneuver(), data);
                lemma_text_token(data);
                assert(word_broadcast()[0] != word_maneuver()[0]);
            },
        }
    }

    fn write(&self, out: &mut Vec<u8>) {
        match self {
            Step::Login => {
                out.extend_from_slice(login_word().as_slice());
            },
            Step::Broadcast(text) => {
                out.extend_from_slice(broadcast_word().as_slice());
                out.push(SP);
                write_text(text.as_str(), out);
                proof {
                    assert(final(out)@ =~= old(out)@ + word_with_text(word_broadcast(), text@));
                }
            },
            Step::StopBroadcast => {
                out.extend_from_slice(stop_broadcast_word().as_slice());
            },
            Step::Heartbeat => {
                out.extend_from_slice(heartbeat_word().as_slice());
            },
            Step::ScheduleManeuver(data) => {
                out.extend_from_slice(maneuver_word().as_slice());
                out.push(SP);
                write_text(data.as_str(), out);
                proof {
                    assert(final(out)@ =~= old(out)@ + word_with_text(word_maneuver(), data@));
                }
            },
        }
    }

    fn read(payload: &[u8]) -> (value: Option<Step>) {
        let at = find(payload, 0, SP);
        proof {
            assert(payload@.skip(0) =~= payload@);
        }
        let word = slice_subrange(payload, 0, at);
        proof {
            assert(word@ =~= payload@.take(at as int));
        }
        if at >= payload.len() {
            if same_bytes(word, login_word().as_slice()) {
                Some(Step::Login)
            } else if same_bytes(word, stop_broadcast_word().as_slice()) {
                Some(Step::StopBroadcast)
            } else if same_bytes(word, heartbeat_word().as_slice()) {
                Some(Step::Heartbeat)
            } else {
                None
            }
        } else {
            let token = slice_subrange(payload, at + 1, payload.len());
            proof {
                assert(token@ =~= payload@.skip(at + 1));
            }
            match read_text(token) {
                None => None,
                Some(text) => if same_bytes(word, broadcast_word().as_slice()) {
                    Some(Step::Broadcast(text))
                } else if same_bytes(word, maneuver_word().as_slice()) {
                    Some(Step::ScheduleManeuver(text))
                } else {
                    None
                },
            }
        }
    }
}

} // verus!
