//! The decisions of the client's main loop: what a command does to the
//! frame and to the queue of steps, and what a perception does.

use vstd::prelude::*;
use vstd::string::StringExecFns;
use crate::client::action_assembler::{after_add, after_receipt, ActionAssembler, AssemblerView};
use crate::client::input::command::{
    result_view,
    Command,
    CommandError,
    CommandErrorView,
    CommandResult,
    CommandView,
};
use crate::client::network::{ClientEvent, ServerEvent, ServerEventView};
use crate::client::output::{Frame, FrameView, Status, StatusView};
use crate::client::platform::Input;
use crate::strings::same_text;
use crate::protocol::percept::{Broadcast, BroadcastView, Percept, PerceptView};
use crate::protocol::perception::{Perception, PerceptionView};
use crate::protocol::step::{Step, StepView};

verus! {

/// What the status line says of a line that is no command: the word in
/// quotes, a colon, and the reason.
pub open spec fn complaint(reason: Seq<char>, word: Seq<char>) -> Seq<char> {
    "\""@ + word + "\": "@ + reason
}

/// The frame after the result of a command: a command that goes to the
/// server clears the status, help sets a notice, a line that is no command
/// sets an error, and the line that is being typed is shown with the
/// commands that it may become.
pub open spec fn frame_after_result(
    frame: FrameView,
    result: Result<CommandView, CommandErrorView>,
) -> FrameView {
    match result {
        Ok(CommandView::Broadcast(_)) => FrameView { status: StatusView::Empty, ..frame },
        Ok(CommandView::StopBroadcast) => FrameView { status: StatusView::Empty, ..frame },
        Ok(CommandView::Help(text)) => FrameView { status: StatusView::Notice(text), ..frame },
        Err(CommandErrorView::Incomplete(partial, applicable)) => FrameView {
            input: partial,
            commands: applicable,
            ..frame
        },
        Err(CommandErrorView::Invalid(reason, word)) => FrameView {
            status: StatusView::Error(complaint(reason, word)),
            ..frame
        },
    }
}

/// The step that a command sends to the server, if it sends one.
pub open spec fn step_of_result(result: Result<CommandView, CommandErrorView>) -> Option<
    StepView,
> {
    match result {
        Ok(CommandView::Broadcast(message)) => Some(StepView::Broadcast(message)),
        Ok(CommandView::StopBroadcast) => Some(StepView::StopBroadcast),
        _ => None,
    }
}

/// The broadcasts that some percepts show.
pub open spec fn broadcasts_in(percepts: Seq<PerceptView>) -> Seq<BroadcastView> {
    Seq::new(
        percepts.len(),
        |i: int|
            match percepts[i] {
                PerceptView::Broadcast(broadcast) => broadcast,
            },
    )
}

/// The frame after a perception: it shows the broadcasts of the
/// perception, and the client's id where the perception tells it.
pub open spec fn frame_after_perception(
    frame: FrameView,
    perception: PerceptionView<Seq<char>, PerceptView>,
) -> FrameView {
    FrameView {
        self_id: match perception.header.self_id {
            Some(id) => id,
            None => frame.self_id,
        },
        broadcasts: broadcasts_in(perception.percepts),
        ..frame
    }
}

/// The broadcasts without those of `sender`, in their order.
pub open spec fn without_sender(broadcasts: Seq<BroadcastView>, sender: Seq<char>) -> Seq<
    BroadcastView,
>
    decreases broadcasts.len(),
{
    if broadcasts.len() == 0 {
        Seq::empty()
    } else {
        let before = without_sender(broadcasts.drop_last(), sender);
        if broadcasts.last().sender == sender {
            before
        } else {
            before.push(broadcasts.last())
        }
    }
}

/// The frame after an event from the server: the client's id is shown; a
/// broadcast is shown in place of any other of its sender, behind the
/// rest; a sender that has stopped is shown no longer.
pub open spec fn frame_after_event(frame: FrameView, event: ServerEventView) -> FrameView {
    match event {
        ServerEventView::SelfId(id) => FrameView { self_id: id, ..frame },
        ServerEventView::StartBroadcast(broadcast) => FrameView {
            broadcasts: without_sender(frame.broadcasts, broadcast.sender).push(broadcast),
            ..frame
        },
        ServerEventView::StopBroadcast(sender) => FrameView {
            broadcasts: without_sender(frame.broadcasts, sender),
            ..frame
        },
    }
}

/// What a headless client tells the server for the input of a tick, and
/// whether it broadcasts afterwards: a text starts a broadcast; no text
/// stops the broadcast that there is, and is a mere heartbeat where there
/// is none.
pub fn event_for(input: Input, broadcasting: bool) -> (told: (ClientEvent, bool))
    ensures
        match input.broadcast {
            Some(message) => told.0 == ClientEvent::StartBroadcast(message) && told.1,
            None => !told.1 && told.0 == if broadcasting {
                ClientEvent::StopBroadcast
            } else {
                ClientEvent::Heartbeat
            },
        },
{
    match input.broadcast {
        Some(message) => (ClientEvent::StartBroadcast(message), true),
        None => if broadcasting {
            (ClientEvent::StopBroadcast, false)
        } else {
            (ClientEvent::Heartbeat, false)
        },
    }
}

/// Removes the broadcasts of `sender`.
pub fn remove_sender(broadcasts: &mut Vec<Broadcast>, sender: &str)
    ensures
        final(broadcasts).deep_view() == without_sender(old(broadcasts).deep_view(), sender@),
{
    let ghost all = broadcasts.deep_view();
    let mut rest: Vec<Broadcast> = Vec::new();
    std::mem::swap(&mut rest, broadcasts);
    let mut i: usize = 0;
    let count = rest.len();
    proof {
        assert(rest.deep_view() =~= all.skip(0));
        assert(broadcasts.deep_view() =~= without_sender(all.take(0), sender@));
    }
    while rest.len() > 0
        invariant
            i + rest.len() == count,
            count == all.len(),
            rest.deep_view() =~= all.skip(i as int),
            broadcasts.deep_view() =~= without_sender(all.take(i as int), sender@),
        decreases rest.len(),
    {
        let ghost left = rest.deep_view();
        let ghost kept = broadcasts.deep_view();
        let broadcast = rest.remove(0);
        proof {
            assert(broadcast.deep_view() == left[0]);
            assert(rest.deep_view() =~= left.drop_first());
            assert(all.take(i + 1).drop_last() =~= all.take(i as int));
            assert(all.take(i + 1).last() == all[i as int]);
        }
        if !same_text(broadcast.sender.as_str(), sender) {
            broadcasts.push(broadcast);
            proof {
                assert(broadcasts.deep_view() =~= kept.push(broadcast.deep_view()));
            }
        }
        i = i + 1;
    }
    proof {
        assert(all.take(i as int) =~= all);
    }
}

/// Lets an event from the server take effect on the frame.
pub fn apply_event(frame: &mut Frame, event: ServerEvent)
    ensures
        final(frame).deep_view() == frame_after_event(old(frame).deep_view(), event.deep_view()),
{
    match event {
        ServerEvent::SelfId(id) => {
            frame.self_id = id;
        },
        ServerEvent::StartBroadcast(broadcast) => {
            remove_sender(&mut frame.broadcasts, broadcast.sender.as_str());
            let ghost kept = frame.broadcasts.deep_view();
            frame.broadcasts.push(broadcast);
            proof {
                assert(frame.broadcasts.deep_view() =~= kept.push(broadcast.deep_view()));
            }
        },
        ServerEvent::StopBroadcast(sender) => {
            remove_sender(&mut frame.broadcasts, sender.as_str());
        },
    }
}

/// Lets the result of a command take effect.
pub fn apply_result(frame: &mut Frame, assembler: &mut ActionAssembler, result: CommandResult)
    requires
        old(assembler).wf(),
    ensures
        final(assembler).wf(),
        final(frame).deep_view() == frame_after_result(
            old(frame).deep_view(),
            result_view(result),
        ),
        final(assembler)@ == match step_of_result(result_view(result)) {
            Some(step) => after_add(old(assembler)@, step),
            None => old(assembler)@,
        },
{
    match result {
        Ok(Command::Broadcast(message)) => {
            let _ = assembler.add_step(Step::Broadcast(message));
            frame.status = Status::Empty;
        },
        Ok(Command::StopBroadcast) => {
            let _ = assembler.add_step(Step::StopBroadcast);
            frame.status = Status::Empty;
        },
        Ok(Command::Help(text)) => {
            frame.status = Status::Notice(String::from_str(text));
        },
        Err(CommandError::Incomplete(partial, applicable)) => {
            frame.input = partial;
            frame.commands = applicable;
        },
        Err(CommandError::Invalid(reason, word)) => {
            let mut text = String::from_str("\"");
            text.append(word.as_str());
            text.append("\": ");
            text.append(reason);
            frame.status = Status::Error(text);
        },
    }
}

/// Lets a perception take effect: the frame shows it, and the assembler
/// gets its receipt.
pub fn apply_perception(
    frame: &mut Frame,
    assembler: &mut ActionAssembler,
    perception: Perception<String, Percept>,
)
    requires
        old(assembler).wf(),
    ensures
        final(assembler).wf(),
        final(frame).deep_view() == frame_after_perception(
            old(frame).deep_view(),
            perception.deep_view(),
        ),
        final(assembler)@ == after_receipt(
            old(assembler)@,
            perception.header.confirm_action,
        ),
{
    let ghost percepts = perception.percepts.deep_view();
    let mut broadcasts: Vec<Broadcast> = Vec::new();
    let mut i: usize = 0;
    while i < perception.percepts.len()
        invariant
            0 <= i <= perception.percepts.len(),
            percepts == perception.percepts.deep_view(),
            broadcasts.deep_view() =~= broadcasts_in(percepts.take(i as int)),
        decreases perception.percepts.len() - i,
    {
        match &perception.percepts[i] {
            Percept::Broadcast(broadcast) => {
                let ghost before = broadcasts.deep_view();
                let copy = broadcast.clone();
                broadcasts.push(copy);
                proof {
                    assert(broadcasts.deep_view() =~= before.push(copy.deep_view()));
                    assert(broadcasts_in(percepts.take(i + 1)) =~= broadcasts_in(
                        percepts.take(i as int),
                    ).push(copy.deep_view()));
                }
            },
        }
        i = i + 1;
    }
    proof {
        assert(percepts.take(i as int) =~= percepts);
    }
    assembler.process_receipt(perception.header.confirm_action);
    match perception.header.self_id {
        Some(id) => {
            frame.self_id = id;
        },
        None => {},
    }
    frame.broadcasts = broadcasts;
}

} // verus!
