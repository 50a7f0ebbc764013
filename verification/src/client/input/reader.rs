//! The line editor: it takes the characters that were typed since the last
//! tick and says which commands were submitted and what the line holds now.

use vstd::prelude::*;
use vstd::string::StringExecFns;
use crate::client::input::command::{
    applicable,
    names_of,
    parse_command,
    result_view,
    Command,
    CommandError,
    CommandErrorView,
    CommandKind,
    CommandKinds,
    CommandResult,
    CommandView,
};
use crate::strings::{pop_char, push_char};

verus! {

/// The character that the backspace key sends.
pub const BACKSPACE: char = '\x7f';

/// The character that the tabulator key sends.
pub const TAB: char = '\x09';

/// The character that ends a line.
pub const ENTER: char = '\n';

/// Whether `c` is a control character: one of the code points below the
/// space, or from `DEL` up to the end of the second control block.
pub open spec fn is_control(c: char) -> bool {
    (c as u32) < 0x20 || 0x7f <= (c as u32) <= 0x9f
}

/// The line after one more character: backspace removes the last one, the
/// tabulator completes the line where exactly one command begins with it,
/// enter empties it, other control characters are ignored, and anything
/// else is appended.
pub open spec fn typed(current: Seq<char>, start_with: Seq<Seq<char>>, c: char) -> Seq<char> {
    if c == BACKSPACE {
        if current.len() > 0 {
            current.drop_last()
        } else {
            current
        }
    } else if c == TAB {
        if start_with.len() == 1 {
            start_with[0].push(' ')
        } else {
            current
        }
    } else if c == ENTER {
        Seq::empty()
    } else if is_control(c) {
        current
    } else {
        current.push(c)
    }
}

/// The line after all of `chars`.
pub open spec fn typed_all(current: Seq<char>, start_with: Seq<Seq<char>>, chars: Seq<char>) -> Seq<
    char,
>
    decreases chars.len(),
{
    if chars.len() == 0 {
        current
    } else {
        typed(typed_all(current, start_with, chars.drop_last()), start_with, chars.last())
    }
}

/// The lines that were submitted while `chars` were typed, in order.
pub open spec fn submitted(current: Seq<char>, start_with: Seq<Seq<char>>, chars: Seq<char>) -> Seq<
    Seq<char>,
>
    decreases chars.len(),
{
    if chars.len() == 0 {
        Seq::empty()
    } else {
        let before = submitted(current, start_with, chars.drop_last());
        if chars.last() == ENTER {
            before.push(typed_all(current, start_with, chars.drop_last()))
        } else {
            before
        }
    }
}

/// The line editor as a mathematical value.
pub struct ReaderView {
    /// The line so far.
    pub current: Seq<char>,
    /// The names of the commands that began with the line at the end of the
    /// last tick.
    pub start_with: Seq<Seq<char>>,
    pub kinds: Seq<CommandKind>,
}

/// The line editor.
pub struct InputReader {
    current: String,
    command_kinds: CommandKinds,
    start_with: Vec<String>,
}

impl View for InputReader {
    type V = ReaderView;

    closed spec fn view(&self) -> ReaderView {
        ReaderView {
            current: self.current@,
            start_with: self.start_with.deep_view(),
            kinds: self.command_kinds@,
        }
    }
}

/// Whether `c` is a control character.
pub fn char_is_control(c: char) -> (yes: bool)
    ensures
        yes == is_control(c),
{
    let code: u32 = c as u32;
    code < 0x20 || (0x7f <= code && code <= 0x9f)
}

/// The names of some kinds of command.
pub fn names(kinds: &Vec<CommandKind>) -> (names: Vec<String>)
    ensures
        names.deep_view() == names_of(kinds@),
{
    let mut names: Vec<String> = Vec::new();
    let mut i: usize = 0;
    while i < kinds.len()
        invariant
            0 <= i <= kinds.len(),
            names.deep_view() =~= names_of(kinds@.take(i as int)),
        decreases kinds.len() - i,
    {
        let ghost before = names.deep_view();
        let name = String::from_str(kinds[i].name());
        names.push(name);
        proof {
            assert(names.deep_view() =~= before.push(kinds@[i as int].spec_name()));
            assert(names_of(kinds@.take(i + 1)) =~= names_of(kinds@.take(i as int)).push(
                kinds@[i as int].spec_name(),
            ));
        }
        i = i + 1;
    }
    proof {
        assert(kinds@.take(i as int) =~= kinds@);
    }
    names
}

impl InputReader {
    /// An editor with an empty line, which knows all commands.
    pub fn new() -> (reader: InputReader)
        ensures
            reader@.current == Seq::<char>::empty(),
            reader@.start_with == Seq::<Seq<char>>::empty(),
            reader@.kinds == seq![
                CommandKind::Broadcast,
                CommandKind::StopBroadcast,
                CommandKind::Help,
            ],
    {
        let reader = InputReader {
            current: String::new(),
            command_kinds: CommandKinds::new(),
            start_with: Vec::new(),
        };
        proof {
            assert(reader.start_with.deep_view() =~= Seq::<Seq<char>>::empty());
        }
        reader
    }

    /// Takes the characters typed since the last tick. The result holds one
    /// entry for each line that was submitted, in order, and at its end the
    /// line as it stands now with the names of the commands that begin
    /// with it.
    pub fn input(&mut self, chars: &Vec<char>) -> (commands: Vec<CommandResult>)
        ensures
            final(self)@.kinds == old(self)@.kinds,
            final(self)@.current == typed_all(old(self)@.current, old(self)@.start_with, chars@),
            final(self)@.start_with == names_of(
                applicable(old(self)@.kinds, final(self)@.current),
            ),
            commands@.len() == submitted(
                old(self)@.current,
                old(self)@.start_with,
                chars@,
            ).len() + 1,
            forall|i: int|
                0 <= i < commands@.len() - 1 ==> result_view(#[trigger] commands@[i])
                    == parse_command(
                    old(self)@.kinds,
                    submitted(old(self)@.current, old(self)@.start_with, chars@)[i],
                ),
            result_view(commands@.last()) == Err::<CommandView, CommandErrorView>(
                CommandErrorView::Incomplete(final(self)@.current, final(self)@.start_with),
            ),
    {
        let ghost start = self@.current;
        let ghost known = self@.start_with;
        let ghost kinds = self@.kinds;
        let mut commands: Vec<CommandResult> = Vec::new();
        let mut i: usize = 0;
        while i < chars.len()
            invariant
                0 <= i <= chars.len(),
                self.command_kinds@ == kinds,
                self.start_with.deep_view() == known,
                self.current@ == typed_all(start, known, chars@.take(i as int)),
                commands@.len() == submitted(start, known, chars@.take(i as int)).len(),
                forall|j: int|
                    0 <= j < commands@.len() ==> result_view(#[trigger] commands@[j])
                        == parse_command(kinds, submitted(start, known, chars@.take(i as int))[j]),
            decreases chars.len() - i,
        {
            let c = chars[i];
            proof {
                assert(chars@.take(i + 1).drop_last() =~= chars@.take(i as int));
                assert(chars@.take(i + 1).last() == c);
            }
            if c == BACKSPACE {
                let _ = pop_char(&mut self.current);
            } else if c == TAB {
                if self.start_with.len() == 1 {
                    self.current = self.start_with[0].clone();
                    push_char(&mut self.current, ' ');
                }
            } else if c == ENTER {
                let line = self.current.clone();
                let result = Command::parse(&self.command_kinds, line);
                commands.push(result);
                self.current = String::new();
            } else if char_is_control(c) {
            } else {
                push_char(&mut self.current, c);
            }
            i = i + 1;
        }
        proof {
            assert(chars@.take(i as int) =~= chars@);
        }
        let found = self.command_kinds.start_with(self.current.as_str());
        self.start_with = names(&found);
        let partial = self.current.clone();
        let applicable = names(&found);
        commands.push(Err(CommandError::Incomplete(partial, applicable)));
        commands
    }
}

} // verus!
