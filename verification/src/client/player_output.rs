//! What a player sees: the frame laid out on a screen of characters.

use vstd::prelude::*;
use vstd::string::{StrSliceExecFns, StringExecFns};
use crate::client::output::{hint_of, prompt, status_text, Frame, FrameView};
use crate::client::screen::{empty_screen, written, Color, Screen, ScreenView};
use crate::protocol::percept::BroadcastView;

verus! {

/// Something that shows frames.
pub trait Output {
    /// Shows a frame.
    fn render(&mut self, frame: &Frame);
}

/// The number of columns of the player's screen.
pub const SCREEN_WIDTH: u16 = 80;

/// The number of rows of the player's screen.
pub const SCREEN_HEIGHT: u16 = 24;

/// The column at which the entries under a heading begin.
pub const INDENT: usize = 4;

/// The most that is shown of the name of a command.
pub const COMMAND_WIDTH: usize = 15;

/// The line that shows the client's id.
pub open spec fn id_line(id: Seq<char>) -> Seq<char> {
    "Comm ID: "@ + id
}

/// The line that shows a broadcast.
pub open spec fn broadcast_line(broadcast: BroadcastView) -> Seq<char> {
    broadcast.sender + ": "@ + broadcast.message
}

/// The screen with one line for each broadcast, from row `row` down.
pub open spec fn with_broadcasts(s: ScreenView, broadcasts: Seq<BroadcastView>, row: int) -> ScreenView
    decreases broadcasts.len(),
{
    if broadcasts.len() == 0 {
        s
    } else {
        written(
            with_broadcasts(s, broadcasts.drop_last(), row),
            INDENT as int,
            row + broadcasts.len() - 1,
            s.width,
            broadcast_line(broadcasts.last()),
        )
    }
}

/// The column behind the last of some commands in their row: each takes
/// its length and four columns more.
pub open spec fn column_after(commands: Seq<Seq<char>>) -> int
    decreases commands.len(),
{
    if commands.len() == 0 {
        INDENT as int
    } else {
        column_after(commands.drop_last()) + 4 + commands.last().len()
    }
}

/// The screen with the names of the commands side by side in row `row`.
pub open spec fn with_commands(s: ScreenView, commands: Seq<Seq<char>>, row: int) -> ScreenView
    decreases commands.len(),
{
    if commands.len() == 0 {
        s
    } else {
        written(
            with_commands(s, commands.drop_last(), row),
            column_after(commands.drop_last()),
            row,
            COMMAND_WIDTH as int,
            commands.last(),
        )
    }
}

/// The row of the heading of the commands: behind the broadcasts, or the
/// one line that says that there are none, and an empty row.
pub open spec fn commands_row(frame: FrameView) -> int {
    if frame.broadcasts.len() == 0 {
        6
    } else {
        5 + frame.broadcasts.len() as int
    }
}

/// The screen with the ship's information in rows 0 and 1.
pub open spec fn with_ship_info(s: ScreenView, frame: FrameView) -> ScreenView {
    written(written(s, 0, 0, s.width, "SHIP INFO"@), INDENT as int, 1, s.width, id_line(frame.self_id))
}

/// The screen with the broadcasts from row 3 down.
pub open spec fn with_broadcast_list(s: ScreenView, frame: FrameView) -> ScreenView {
    let headed = written(s, 0, 3, s.width, "BROADCASTS"@);
    if frame.broadcasts.len() == 0 {
        written(headed, INDENT as int, 4, s.width, "none"@)
    } else {
        with_broadcasts(headed, frame.broadcasts, 4)
    }
}

/// The screen with the commands in the two rows from `commands_row` down.
pub open spec fn with_command_list(s: ScreenView, frame: FrameView) -> ScreenView {
    let row = commands_row(frame);
    let headed = written(s, 0, row, s.width, "COMMANDS"@);
    if frame.commands.len() == 0 {
        written(headed, INDENT as int, row + 1, s.width, "none"@)
    } else {
        with_commands(headed, frame.commands, row + 1)
    }
}

/// The screen with the status two rows below the commands.
pub open spec fn with_status(s: ScreenView, frame: FrameView) -> ScreenView {
    written(s, 0, commands_row(frame) + 4, s.width, status_text(frame.status))
}

/// The screen with the input line below the status: the prompt and the
/// input, the cursor behind them (in the row below the last where the
/// line is not on the screen) and, in black, the rest of the command
/// where only one command can be meant.
pub open spec fn with_input(s: ScreenView, frame: FrameView) -> ScreenView {
    let row = commands_row(frame) + 5;
    let line = prompt() + frame.input;
    let typed = ScreenView {
        cursor: (
            line.len() as int,
            if row < s.height {
                row
            } else {
                s.height
            },
        ),
        ..written(s, 0, row, s.width, line)
    };
    if frame.commands.len() == 1 {
        ScreenView {
            bold: typed.bold,
            color: typed.color,
            ..written(
                ScreenView { bold: true, color: Color::Black, ..typed },
                line.len() as int,
                row,
                s.width,
                hint_of(frame),
            )
        }
    } else {
        typed
    }
}

/// The screen that shows a frame: an empty screen in bold, then the
/// ship's information, the broadcasts, the commands, the status and the
/// input line, from top to bottom.
pub open spec fn rendered(frame: FrameView, width: int, height: int) -> ScreenView {
    let start = ScreenView { bold: true, ..empty_screen(width, height) };
    with_input(
        with_status(
            with_command_list(with_broadcast_list(with_ship_info(start, frame), frame), frame),
            frame,
        ),
        frame,
    )
}

/// The player's output: a screen of 80 columns and 24 rows.
pub struct PlayerOutput {
    screen: Screen,
}

impl View for PlayerOutput {
    type V = ScreenView;

    closed spec fn view(&self) -> ScreenView {
        self.screen@
    }
}

/// The lesser of `row + more` and `height`.
fn below(row: usize, more: usize, height: usize) -> (next: usize)
    requires
        row <= height,
    ensures
        next == if row + more < height {
            row + more
        } else {
            height as int
        },
{
    if more < height - row {
        row + more
    } else {
        height
    }
}

impl PlayerOutput {
    /// Whether the output is in a state that its own methods lead to.
    pub closed spec fn wf(&self) -> bool {
        &&& self.screen.wf()
        &&& self.screen@.width == SCREEN_WIDTH
        &&& self.screen@.height == SCREEN_HEIGHT
    }

    /// An output with an empty screen.
    pub fn new() -> (output: PlayerOutput)
        ensures
            output.wf(),
            output@ == empty_screen(SCREEN_WIDTH as int, SCREEN_HEIGHT as int),
    {
        PlayerOutput { screen: Screen::new(SCREEN_WIDTH, SCREEN_HEIGHT) }
    }

    /// The screen as it was rendered last.
    pub fn screen(&self) -> (screen: &Screen)
        ensures
            screen@ == self@,
            self.wf() ==> screen.wf(),
    {
        &self.screen
    }

    fn render_ship_info(&mut self, frame: &Frame)
        requires
            old(self).screen.wf(),
        ensures
            final(self).screen.wf(),
            final(self)@ == with_ship_info(old(self)@, frame.deep_view()),
            final(self)@.width == old(self)@.width,
            final(self)@.height == old(self)@.height,
    {
        let width = self.screen.width();
        self.screen.write(0, 0, width, "SHIP INFO");
        let mut line = String::from_str("Comm ID: ");
        line.append(frame.self_id.as_str());
        self.screen.write(INDENT, 1, width, line.as_str());
    }

    fn render_broadcasts(&mut self, frame: &Frame)
        requires
            old(self).screen.wf(),
            old(self)@.height >= 4,
        ensures
            final(self).screen.wf(),
            final(self)@ == with_broadcast_list(old(self)@, frame.deep_view()),
            final(self)@.width == old(self)@.width,
            final(self)@.height == old(self)@.height,
    {
        let width = self.screen.width();
        let height = self.screen.height();
        self.screen.write(0, 3, width, "BROADCASTS");
        if frame.broadcasts.len() == 0 {
            self.screen.write(INDENT, 4, width, "none");
            return ;
        }
        let ghost headed = self@;
        let ghost all = frame.broadcasts.deep_view();
        let mut y: usize = 4;
        let mut i: usize = 0;
        while i < frame.broadcasts.len()
            invariant
                0 <= i <= frame.broadcasts.len(),
                all == frame.broadcasts.deep_view(),
                self.screen.wf(),
                width == headed.width,
                height == headed.height,
                height >= 4,
                y == if 4 + i < height {
                    4 + i
                } else {
                    height as int
                },
                self@ == with_broadcasts(headed, all.take(i as int), 4),
            decreases frame.broadcasts.len() - i,
        {
            let broadcast = &frame.broadcasts[i];
            let mut line = String::from_str(broadcast.sender.as_str());
            line.append(": ");
            line.append(broadcast.message.as_str());
            proof {
                assert(all.take(i + 1).drop_last() =~= all.take(i as int));
                assert(all.take(i + 1).last() == broadcast.deep_view());
                lemma_with_broadcasts_size(headed, all.take(i as int), 4);
            }
            self.screen.write(INDENT, y, width, line.as_str());
            y = below(y, 1, height);
            i = i + 1;
        }
        proof {
            assert(all.take(i as int) =~= all);
            lemma_with_broadcasts_size(headed, all, 4);
        }
    }

    fn render_commands(&mut self, frame: &Frame, row: usize)
        requires
            old(self).screen.wf(),
            row <= old(self)@.height,
            row == if commands_row(frame.deep_view()) < old(self)@.height {
                commands_row(frame.deep_view())
            } else {
                old(self)@.height
            },
        ensures
            final(self).screen.wf(),
            final(self)@ == with_command_list(old(self)@, frame.deep_view()),
            final(self)@.width == old(self)@.width,
            final(self)@.height == old(self)@.height,
    {
        let width = self.screen.width();
        let height = self.screen.height();
        self.screen.write(0, row, width, "COMMANDS");
        let list_row = below(row, 1, height);
        if frame.commands.len() == 0 {
            self.screen.write(INDENT, list_row, width, "none");
            return ;
        }
        let ghost headed = self@;
        let ghost all = frame.commands.deep_view();
        let ghost exact = commands_row(frame.deep_view()) + 1;
        let mut x: usize = below(0, INDENT, width);
        let mut i: usize = 0;
        proof {
            assert(all.take(0) =~= Seq::<Seq<char>>::empty());
        }
        while i < frame.commands.len()
            invariant
                0 <= i <= frame.commands.len(),
                all == frame.commands.deep_view(),
                self.screen.wf(),
                width == headed.width,
                height == headed.height,
                list_row == if exact < height {
                    exact
                } else {
                    height as int
                },
                x == if column_after(all.take(i as int)) < width {
                    column_after(all.take(i as int))
                } else {
                    width as int
                },
                column_after(all.take(i as int)) >= 0,
                self@ == with_commands(headed, all.take(i as int), exact),
            decreases frame.commands.len() - i,
        {
            let command = frame.commands[i].as_str();
            proof {
                assert(all.take(i + 1).drop_last() =~= all.take(i as int));
                assert(all.take(i + 1).last() == command@);
                lemma_with_commands_size(headed, all.take(i as int), exact);
                lemma_write_beyond(
                    self@,
                    x as int,
                    column_after(all.take(i as int)),
                    list_row as int,
                    exact,
                    COMMAND_WIDTH as int,
                    command@,
                );
            }
            self.screen.write(x, list_row, COMMAND_WIDTH, command);
            let len = command.unicode_len();
            x = below(x, 4, width);
            x = below(x, len, width);
            i = i + 1;
        }
        proof {
            assert(all.take(i as int) =~= all);
            lemma_with_commands_size(headed, all, exact);
        }
    }

    fn render_status(&mut self, frame: &Frame, row: usize)
        requires
            old(self).screen.wf(),
            row == if commands_row(frame.deep_view()) + 4 < old(self)@.height {
                commands_row(frame.deep_view()) + 4
            } else {
                old(self)@.height
            },
        ensures
            final(self).screen.wf(),
            final(self)@ == with_status(old(self)@, frame.deep_view()),
            final(self)@.width == old(self)@.width,
            final(self)@.height == old(self)@.height,
    {
        let width = self.screen.width();
        self.screen.write(0, row, width, frame.status.text());
    }

    fn render_input(&mut self, frame: &Frame, row: usize)
        requires
            old(self).screen.wf(),
            row == if commands_row(frame.deep_view()) + 5 < old(self)@.height {
                commands_row(frame.deep_view()) + 5
            } else {
                old(self)@.height
            },
        ensures
            final(self).screen.wf(),
            final(self)@ == with_input(old(self)@, frame.deep_view()),
            final(self)@.width == old(self)@.width,
            final(self)@.height == old(self)@.height,
    {
        let width = self.screen.width();
        let line = frame.input_line();
        self.screen.write(0, row, width, line.as_str());
        let cursor = line.as_str().unicode_len();
        self.screen.set_cursor(cursor, row);
        if frame.commands.len() == 1 {
            let bold = self.screen.set_bold(true);
            let color = self.screen.set_color(Color::Black);
            let hint = frame.hint();
            self.screen.write(cursor, row, width, hint.as_str());
            let _ = self.screen.set_bold(bold);
            let _ = self.screen.set_color(color);
        }
    }
}

impl Output for PlayerOutput {
    /// Lays the frame out on the screen, in place of what was there.
    fn render(&mut self, frame: &Frame)
        ensures
            final(self).wf(),
            final(self)@ == rendered(
                frame.deep_view(),
                SCREEN_WIDTH as int,
                SCREEN_HEIGHT as int,
            ),
    {
        self.screen = Screen::new(SCREEN_WIDTH, SCREEN_HEIGHT);
        let _ = self.screen.set_bold(true);
        let height = self.screen.height();
        self.render_ship_info(frame);
        self.render_broadcasts(frame);
        let lines: usize = if frame.broadcasts.len() == 0 {
            1
        } else {
            frame.broadcasts.len()
        };
        proof {
            assert(frame.broadcasts.deep_view().len() == frame.broadcasts@.len());
        }
        let row = below(below(0, 5, height), lines, height);
        self.render_commands(frame, row);
        self.render_status(frame, below(row, 4, height));
        self.render_input(frame, below(row, 5, height));
    }
}

/// Writing lines for broadcasts keeps the size of the screen.
pub proof fn lemma_with_broadcasts_size(s: ScreenView, broadcasts: Seq<BroadcastView>, row: int)
    ensures
        with_broadcasts(s, broadcasts, row).width == s.width,
        with_broadcasts(s, broadcasts, row).height == s.height,
        with_broadcasts(s, broadcasts, row).bold == s.bold,
        with_broadcasts(s, broadcasts, row).color == s.color,
        with_broadcasts(s, broadcasts, row).cursor == s.cursor,
        with_broadcasts(s, broadcasts, row).cells.len() == s.cells.len(),
    decreases broadcasts.len(),
{
    if broadcasts.len() != 0 {
        lemma_with_broadcasts_size(s, broadcasts.drop_last(), row);
    }
}

/// Writing the names of commands keeps the size of the screen.
pub proof fn lemma_with_commands_size(s: ScreenView, commands: Seq<Seq<char>>, row: int)
    ensures
        with_commands(s, commands, row).width == s.width,
        with_commands(s, commands, row).height == s.height,
        with_commands(s, commands, row).bold == s.bold,
        with_commands(s, commands, row).color == s.color,
        with_commands(s, commands, row).cursor == s.cursor,
        with_commands(s, commands, row).cells.len() == s.cells.len(),
        column_after(commands) >= INDENT,
    decreases commands.len(),
{
    if commands.len() != 0 {
        lemma_with_commands_size(s, commands.drop_last(), row);
    }
}

/// A write beyond the right edge or below the last row changes nothing,
/// wherever beyond it aims.
pub proof fn lemma_write_beyond(
    s: ScreenView,
    x: int,
    exact_x: int,
    y: int,
    exact_y: int,
    limit: int,
    text: Seq<char>,
)
    requires
        0 <= s.width,
        0 <= s.height,
        0 <= x,
        0 <= y,
        x == if exact_x < s.width {
            exact_x
        } else {
            s.width
        },
        y == if exact_y < s.height {
            exact_y
        } else {
            s.height
        },
    ensures
        written(s, x, y, limit, text) == written(s, exact_x, exact_y, limit, text),
{
    let a = written(s, x, y, limit, text);
    let b = written(s, exact_x, exact_y, limit, text);
    if exact_y < s.height {
        assert(a.cells =~= b.cells);
    }
}

} // verus!
