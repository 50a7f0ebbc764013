//! The elements of the communication tab and how they take input.

use vstd::prelude::*;
use crate::client::input::reader::BACKSPACE;
use crate::strings::{pop_char, push_char};

verus! {

/// Where the cursor keys point.
#[derive(Clone, Copy, Debug, PartialEq, Eq, Structural)]
pub enum Direction {
    Up,
    Down,
    Right,
    Left,
}

/// What an element of the interface does with input.
pub trait ProcessInput {
    /// Takes a character that was typed.
    fn process_char(&mut self, c: char);

    /// Takes a press of a cursor key.
    fn process_cursor(&mut self, direction: Direction);
}

/// A line of text that the user edits.
pub struct TextField {
    pub text: String,
}

/// The form in which the user writes a broadcast.
pub struct BroadcastForm {
    pub text_field: TextField,
}

/// The list of the broadcasts received.
pub struct List {}

/// The communication tab: the form and the list, one of them selected.
pub struct CommTab {
    /// Whether the selected element takes the input.
    pub element_active: bool,
    /// Which element is selected: the form where even, the list where odd.
    pub selected_index: u32,
    pub broadcast_form: BroadcastForm,
    pub broadcast_list: List,
}

/// A text after one more character: backspace removes the last one,
/// anything else is appended.
pub open spec fn edited(text: Seq<char>, c: char) -> Seq<char> {
    if c == BACKSPACE {
        if text.len() > 0 {
            text.drop_last()
        } else {
            text
        }
    } else {
        text.push(c)
    }
}

impl ProcessInput for TextField {
    fn process_char(&mut self, c: char)
        ensures
            final(self).text@ == edited(old(self).text@, c),
    {
        if c == BACKSPACE {
            let _ = pop_char(&mut self.text);
        } else {
            push_char(&mut self.text, c);
        }
    }

    fn process_cursor(&mut self, direction: Direction)
        ensures
            final(self).text@ == old(self).text@,
    {
    }
}

impl ProcessInput for BroadcastForm {
    fn process_char(&mut self, c: char)
        ensures
            final(self).text_field.text@ == edited(old(self).text_field.text@, c),
    {
        self.text_field.process_char(c)
    }

    fn process_cursor(&mut self, direction: Direction)
        ensures
            final(self).text_field.text@ == old(self).text_field.text@,
    {
    }
}

impl ProcessInput for List {
    fn process_char(&mut self, c: char) {
    }

    fn process_cursor(&mut self, direction: Direction) {
    }
}

impl ProcessInput for CommTab {
    /// Enter switches between selecting and editing, and editing starts
    /// with an empty form; while editing, other characters go to the form.
    fn process_char(&mut self, c: char)
        ensures
            final(self).selected_index == old(self).selected_index,
            final(self).element_active == if c == '\n' {
                !old(self).element_active
            } else {
                old(self).element_active
            },
            final(self).broadcast_form.text_field.text@ == if c == '\n' {
                if old(self).element_active {
                    old(self).broadcast_form.text_field.text@
                } else {
                    Seq::<char>::empty()
                }
            } else if old(self).element_active {
                edited(old(self).broadcast_form.text_field.text@, c)
            } else {
                old(self).broadcast_form.text_field.text@
            },
    {
        if c == '\n' {
            self.element_active = !self.element_active;
            if self.element_active {
                self.broadcast_form.text_field.text = String::new();
            }
        } else if self.element_active {
            self.broadcast_form.process_char(c);
        }
    }

    /// While selecting, the keys up and down both move the selection one
    /// element back, past the first to the last; while editing, the
    /// selected element takes the key and does nothing with it.
    fn process_cursor(&mut self, direction: Direction)
        ensures
            final(self).element_active == old(self).element_active,
            final(self).broadcast_form.text_field.text@
                == old(self).broadcast_form.text_field.text@,
            final(self).selected_index == if !old(self).element_active && (direction
                == Direction::Up || direction == Direction::Down) {
                if old(self).selected_index == 0 {
                    u32::MAX
                } else {
                    (old(self).selected_index - 1) as u32
                }
            } else {
                old(self).selected_index
            },
    {
        if self.element_active {
            if self.selected_index % 2 == 0 {
                self.broadcast_form.process_cursor(direction);
            } else {
                self.broadcast_list.process_cursor(direction);
            }
        } else {
            match direction {
                Direction::Up => {
                    self.selected_index = self.selected_index.wrapping_sub(1);
                },
                Direction::Down => {
                    self.selected_index = self.selected_index.wrapping_sub(1);
                },
                _ => {},
            }
        }
    }
}

} // verus!
