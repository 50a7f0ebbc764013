//! The commands that a user can type, and how a line is read as one.

use vstd::prelude::*;
use vstd::string::{StrSliceExecFns, StringExecFns};
use crate::strings::{begins_with, char_position, find_char, same_text, starts_with};

verus! {

/// A kind of command.
#[derive(Clone, Copy, Debug, PartialEq, Eq, Structural)]
pub enum CommandKind {
    Broadcast,
    StopBroadcast,
    Help,
}

impl CommandKind {
    /// The word that the user types for a command of this kind.
    pub open spec fn spec_name(self) -> Seq<char> {
        match self {
            CommandKind::Broadcast => "broadcast"@,
            CommandKind::StopBroadcast => "stop-broadcast"@,
            CommandKind::Help => "help"@,
        }
    }

    /// What `help` says of this kind.
    pub open spec fn spec_help(self) -> Seq<char> {
        match self {
            CommandKind::Broadcast => "broadcast <text>: send the text to everybody"@,
            CommandKind::StopBroadcast => "stop-broadcast: stop sending your text"@,
            CommandKind::Help => "help <command>: explain the command"@,
        }
    }

    /// The word that the user types for a command of this kind.
    pub fn name(&self) -> (name: &'static str)
        ensures
            name@ == self.spec_name(),
    {
        match self {
            CommandKind::Broadcast => "broadcast",
            CommandKind::StopBroadcast => "stop-broadcast",
            CommandKind::Help => "help",
        }
    }

    /// What `help` says of this kind.
    pub fn help(&self) -> (text: &'static str)
        ensures
            text@ == self.spec_help(),
    {
        match self {
            CommandKind::Broadcast => "broadcast <text>: send the text to everybody",
            CommandKind::StopBroadcast => "stop-broadcast: stop sending your text",
            CommandKind::Help => "help <command>: explain the command",
        }
    }
}

/// A command that the user has submitted.
#[derive(Debug, PartialEq, Eq)]
pub enum Command {
    /// Broadcast the text.
    Broadcast(String),
    /// Stop broadcasting.
    StopBroadcast,
    /// Show the text, which explains a command.
    Help(&'static str),
}

/// A command as a mathematical value.
pub enum CommandView {
    Broadcast(Seq<char>),
    StopBroadcast,
    Help(Seq<char>),
}

impl DeepView for Command {
    type V = CommandView;

    open spec fn deep_view(&self) -> CommandView {
        match self {
            Command::Broadcast(text) => CommandView::Broadcast(text@),
            Command::StopBroadcast => CommandView::StopBroadcast,
            Command::Help(text) => CommandView::Help(text@),
        }
    }
}

/// Why there is no command.
#[derive(Debug, PartialEq, Eq)]
pub enum CommandError {
    /// The line is not submitted yet: what it holds so far, and the names
    /// of the commands that begin with it.
    Incomplete(String, Vec<String>),
    /// The line is no command: the reason, and the word that was
    /// not understood.
    Invalid(&'static str, String),
}

/// A command error as a mathematical value.
pub enum CommandErrorView {
    Incomplete(Seq<char>, Seq<Seq<char>>),
    Invalid(Seq<char>, Seq<char>),
}

impl DeepView for CommandError {
    type V = CommandErrorView;

    open spec fn deep_view(&self) -> CommandErrorView {
        match self {
            CommandError::Incomplete(partial, applicable) => CommandErrorView::Incomplete(
                partial@,
                applicable.deep_view(),
            ),
            CommandError::Invalid(reason, word) => CommandErrorView::Invalid(reason@, word@),
        }
    }
}

/// A command, or the reason why there is none.
pub type CommandResult = Result<Command, CommandError>;

/// A command result as a mathematical value.
pub open spec fn result_view(result: CommandResult) -> Result<CommandView, CommandErrorView> {
    match result {
        Ok(command) => Ok(command.deep_view()),
        Err(error) => Err(error.deep_view()),
    }
}

/// The first of `kinds` that is called `name`.
pub open spec fn kind_named(kinds: Seq<CommandKind>, name: Seq<char>) -> Option<CommandKind>
    decreases kinds.len(),
{
    if kinds.len() == 0 {
        None
    } else if kinds[0].spec_name() == name {
        Some(kinds[0])
    } else {
        kind_named(kinds.drop_first(), name)
    }
}

/// Those of `kinds` whose names begin with `input`, in their order.
pub open spec fn applicable(kinds: Seq<CommandKind>, input: Seq<char>) -> Seq<CommandKind>
    decreases kinds.len(),
{
    if kinds.len() == 0 {
        Seq::empty()
    } else {
        let before = applicable(kinds.drop_last(), input);
        if begins_with(kinds.last().spec_name(), input) {
            before.push(kinds.last())
        } else {
            before
        }
    }
}

/// The names of some kinds.
pub open spec fn names_of(kinds: Seq<CommandKind>) -> Seq<Seq<char>> {
    Seq::new(kinds.len(), |i: int| kinds[i].spec_name())
}

/// The word of a line: what stands before its first space.
pub open spec fn word_of(input: Seq<char>) -> Seq<char> {
    input.take(char_position(input, ' '))
}

/// The argument of a line: what follows its first space.
pub open spec fn argument_of(input: Seq<char>) -> Seq<char> {
    let at = char_position(input, ' ');
    if 0 <= at < input.len() {
        input.skip(at + 1)
    } else {
        Seq::empty()
    }
}

/// The reason given for a word that names no command.
pub open spec fn unknown_command() -> Seq<char> {
    "Unknown command"@
}

/// What a submitted line means: its word names the command, the rest is
/// the text to broadcast or the command to explain.
pub open spec fn parse_command(kinds: Seq<CommandKind>, input: Seq<char>) -> Result<
    CommandView,
    CommandErrorView,
> {
    match kind_named(kinds, word_of(input)) {
        None => Err(CommandErrorView::Invalid(unknown_command(), word_of(input))),
        Some(CommandKind::Broadcast) => Ok(CommandView::Broadcast(argument_of(input))),
        Some(CommandKind::StopBroadcast) => Ok(CommandView::StopBroadcast),
        Some(CommandKind::Help) => match kind_named(kinds, argument_of(input)) {
            None => Err(CommandErrorView::Invalid(unknown_command(), argument_of(input))),
            Some(kind) => Ok(CommandView::Help(kind.spec_help())),
        },
    }
}

/// The kinds of command that the client knows.
pub struct CommandKinds {
    kinds: Vec<CommandKind>,
}

impl View for CommandKinds {
    type V = Seq<CommandKind>;

    closed spec fn view(&self) -> Seq<CommandKind> {
        self.kinds@
    }
}

impl CommandKinds {
    /// All kinds: `broadcast`, `stop-broadcast` and `help`.
    pub fn new() -> (kinds: CommandKinds)
        ensures
            kinds@ == seq![CommandKind::Broadcast, CommandKind::StopBroadcast, CommandKind::Help],
    {
        let mut kinds: Vec<CommandKind> = Vec::new();
        kinds.push(CommandKind::Broadcast);
        kinds.push(CommandKind::StopBroadcast);
        kinds.push(CommandKind::Help);
        proof {
            assert(kinds@ =~= seq![
                CommandKind::Broadcast,
                CommandKind::StopBroadcast,
                CommandKind::Help,
            ]);
        }
        CommandKinds { kinds }
    }

    /// The kinds whose names begin with `input`.
    pub fn start_with(&self, input: &str) -> (found: Vec<CommandKind>)
        ensures
            found@ == applicable(self@, input@),
    {
        let mut found: Vec<CommandKind> = Vec::new();
        let mut i: usize = 0;
        while i < self.kinds.len()
            invariant
                0 <= i <= self.kinds.len(),
                found@ == applicable(self.kinds@.take(i as int), input@),
            decreases self.kinds.len() - i,
        {
            let kind = self.kinds[i];
            proof {
                assert(self.kinds@.take(i + 1).drop_last() =~= self.kinds@.take(i as int));
                assert(self.kinds@.take(i + 1).last() == kind);
            }
            if starts_with(kind.name(), input) {
                found.push(kind);
            }
            i = i + 1;
        }
        proof {
            assert(self.kinds@.take(i as int) =~= self.kinds@);
        }
        found
    }

    /// The kind that is called `name`.
    pub fn find(&self, name: &str) -> (kind: Option<CommandKind>)
        ensures
            kind == kind_named(self@, name@),
    {
        let mut i: usize = 0;
        proof {
            assert(self.kinds@.skip(0) =~= self.kinds@);
        }
        while i < self.kinds.len()
            invariant
                0 <= i <= self.kinds.len(),
                kind_named(self.kinds@, name@) == kind_named(self.kinds@.skip(i as int), name@),
            decreases self.kinds.len() - i,
        {
            let kind = self.kinds[i];
            proof {
                assert(self.kinds@.skip(i as int)[0] == kind);
                assert(self.kinds@.skip(i as int).drop_first() =~= self.kinds@.skip(i + 1));
            }
            if same_text(kind.name(), name) {
                return Some(kind);
            }
            i = i + 1;
        }
        None
    }
}

impl Command {
    /// Reads a submitted line as a command.
    pub fn parse(kinds: &CommandKinds, input: String) -> (result: CommandResult)
        ensures
            result_view(result) == parse_command(kinds@, input@),
    {
        let line = input.as_str();
        let len = line.unicode_len();
        let at = find_char(line, ' ');
        let word = line.substring_char(0, at);
        let argument = if at < len {
            line.substring_char(at + 1, len)
        } else {
            line.substring_char(len, len)
        };
        proof {
            assert(word@ =~= word_of(input@));
            assert(argument@ =~= argument_of(input@));
        }
        match kinds.find(word) {
            None => Err(CommandError::Invalid("Unknown command", String::from_str(word))),
            Some(CommandKind::Broadcast) => Ok(Command::Broadcast(String::from_str(argument))),
            Some(CommandKind::StopBroadcast) => Ok(Command::StopBroadcast),
            Some(CommandKind::Help) => match kinds.find(argument) {
                None => Err(CommandError::Invalid("Unknown command", String::from_str(argument))),
                Some(kind) => Ok(Command::Help(kind.help())),
            },
        }
    }
}

} // verus!
