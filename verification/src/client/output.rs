//! What the client shows: one frame per tick.

use vstd::prelude::*;
use vstd::string::{StrSliceExecFns, StringExecFns};
use crate::protocol::percept::{Broadcast, BroadcastView};

verus! {

/// The line of status under the commands: a notice, an error, or nothing.
#[derive(Debug, PartialEq, Eq)]
pub enum Status {
    Notice(String),
    Error(String),
    /// Nothing to say.
    Empty,
}

/// A status as a mathematical value.
pub enum StatusView {
    Notice(Seq<char>),
    Error(Seq<char>),
    Empty,
}

impl DeepView for Status {
    type V = StatusView;

    open spec fn deep_view(&self) -> StatusView {
        match self {
            Status::Notice(text) => StatusView::Notice(text@),
            Status::Error(text) => StatusView::Error(text@),
            Status::Empty => StatusView::Empty,
        }
    }
}

/// The text of a status; empty where there is none.
pub open spec fn status_text(status: StatusView) -> Seq<char> {
    match status {
        StatusView::Notice(text) => text,
        StatusView::Error(text) => text,
        StatusView::Empty => Seq::empty(),
    }
}

/// What stands before the input on its line.
pub open spec fn prompt() -> Seq<char> {
    "Enter command: "@
}

/// What the input line offers behind the cursor: the rest of the command,
/// where exactly one command may still be meant and the input is no longer
/// than its name; else nothing.
pub open spec fn hint_of(frame: FrameView) -> Seq<char> {
    if frame.commands.len() == 1 && frame.input.len() <= frame.commands[0].len() {
        frame.commands[0].skip(frame.input.len() as int)
    } else {
        Seq::empty()
    }
}

impl Status {
    /// The text of the status; empty where there is none.
    pub fn text(&self) -> (text: &str)
        ensures
            text@ == status_text(self.deep_view()),
    {
        match self {
            Status::Notice(text) => text.as_str(),
            Status::Error(text) => text.as_str(),
            Status::Empty => {
                let text = "";
                proof {
                    reveal_strlit("");
                    assert(text@ =~= Seq::<char>::empty());
                }
                text
            },
        }
    }

    /// Whether the status is a notice.
    pub fn is_notice(&self) -> (yes: bool)
        ensures
            yes == (self is Notice),
    {
        match self {
            Status::Notice(_) => true,
            _ => false,
        }
    }

    /// Whether the status is an error.
    pub fn is_error(&self) -> (yes: bool)
        ensures
            yes == (self is Error),
    {
        match self {
            Status::Error(_) => true,
            _ => false,
        }
    }

    /// Whether there is no status.
    pub fn is_none(&self) -> (yes: bool)
        ensures
            yes == (self is Empty),
    {
        match self {
            Status::Empty => true,
            _ => false,
        }
    }
}

/// Everything that the client shows at one moment.
#[derive(Debug, PartialEq, Eq)]
pub struct Frame {
    /// The id that the server gave this client.
    pub self_id: String,
    /// What the user has typed and not yet submitted.
    pub input: String,
    pub status: Status,
    /// The names of the commands that the input may still become.
    pub commands: Vec<String>,
    /// The broadcasts that the server last reported.
    pub broadcasts: Vec<Broadcast>,
}

/// A frame as a mathematical value.
pub struct FrameView {
    pub self_id: Seq<char>,
    pub input: Seq<char>,
    pub status: StatusView,
    pub commands: Seq<Seq<char>>,
    pub broadcasts: Seq<BroadcastView>,
}

impl DeepView for Frame {
    type V = FrameView;

    open spec fn deep_view(&self) -> FrameView {
        FrameView {
            self_id: self.self_id@,
            input: self.input@,
            status: self.status.deep_view(),
            commands: self.commands.deep_view(),
            broadcasts: self.broadcasts.deep_view(),
        }
    }
}

impl Frame {
    /// The input line as it is shown: the prompt and what was typed.
    pub fn input_line(&self) -> (line: String)
        ensures
            line@ == prompt() + self.input@,
    {
        let mut line = String::from_str("Enter command: ");
        line.append(self.input.as_str());
        line
    }

    /// What the input line offers behind the cursor.
    pub fn hint(&self) -> (hint: String)
        ensures
            hint@ == hint_of(self.deep_view()),
    {
        if self.commands.len() == 1 {
            let command = self.commands[0].as_str();
            let typed = self.input.as_str().unicode_len();
            let len = command.unicode_len();
            proof {
                assert(self.commands.deep_view()[0] == command@);
            }
            if typed <= len {
                let rest = command.substring_char(typed, len);
                proof {
                    assert(rest@ =~= command@.skip(typed as int));
                }
                return String::from_str(rest);
            }
        }
        String::new()
    }

    /// The frame before anything has happened: all empty, no status.
    pub fn new() -> (frame: Frame)
        ensures
            frame.deep_view() == (FrameView {
                self_id: Seq::empty(),
                input: Seq::empty(),
                status: StatusView::Empty,
                commands: Seq::empty(),
                broadcasts: Seq::empty(),
            }),
    {
        let frame = Frame {
            self_id: String::new(),
            input: String::new(),
            status: Status::Empty,
            commands: Vec::new(),
            broadcasts: Vec::new(),
        };
        proof {
            assert(frame.commands.deep_view() =~= Seq::<Seq<char>>::empty());
            assert(frame.broadcasts.deep_view() =~= Seq::<BroadcastView>::empty());
        }
        frame
    }
}

} // verus!
