//! A screen of characters, kept in memory: what is written to it is shown
//! when the terminal next takes it over.

use vstd::prelude::*;
use vstd::string::StrSliceExecFns;

verus! {

/// The colour of a character.
#[derive(Clone, Copy, Debug, PartialEq, Eq, Structural)]
pub enum Color {
    /// The colour that the terminal uses by itself.
    Default,
    Black,
}

/// One character of the screen and how it is drawn.
#[derive(Clone, Copy, Debug, PartialEq, Eq, Structural)]
pub struct Cell {
    pub c: char,
    pub bold: bool,
    pub color: Color,
}

/// A screen as a mathematical value.
pub struct ScreenView {
    pub width: int,
    pub height: int,
    /// The characters, row by row.
    pub cells: Seq<Cell>,
    /// How what is written next is drawn.
    pub bold: bool,
    pub color: Color,
    /// Where the cursor is shown: column and row.
    pub cursor: (int, int),
}

/// An empty cell: a space in the terminal's own colour.
pub open spec fn blank() -> Cell {
    Cell { c: ' ', bold: false, color: Color::Default }
}

/// A screen of empty cells.
pub open spec fn empty_screen(width: int, height: int) -> ScreenView {
    ScreenView {
        width,
        height,
        cells: Seq::new((width * height) as nat, |k: int| blank()),
        bold: false,
        color: Color::Default,
        cursor: (0, 0),
    }
}

/// How many characters of `text` a write at column `x` puts on the
/// screen: no more than the limit, and none beyond the right edge.
pub open spec fn shown(width: int, x: int, limit: int, text: Seq<char>) -> int {
    let room = if x < width {
        width - x
    } else {
        0
    };
    let most = if limit < room {
        limit
    } else {
        room
    };
    if text.len() < most {
        text.len() as int
    } else if most < 0 {
        0
    } else {
        most
    }
}

/// The character at index `i` of `text`; a space where there is none.
pub open spec fn char_at(text: Seq<char>, i: int) -> char {
    if 0 <= i < text.len() {
        text[i]
    } else {
        ' '
    }
}

/// The cells after `text` was written at column `x` of row `y`, with at
/// most `limit` characters: the characters replace what was there, drawn
/// bold or not and in the given colour.
pub open spec fn written_cells(
    cells: Seq<Cell>,
    width: int,
    x: int,
    y: int,
    limit: int,
    text: Seq<char>,
    bold: bool,
    color: Color,
) -> Seq<Cell> {
    let start = y * width + x;
    Seq::new(
        cells.len(),
        |k: int|
            if start <= k < start + shown(width, x, limit, text) {
                Cell { c: char_at(text, k - start), bold, color }
            } else {
                cells[k]
            },
    )
}

/// The screen after `text` was written at column `x` of row `y`, with at
/// most `limit` characters, drawn as the screen is set to draw; a row below
/// the screen takes nothing.
pub open spec fn written(s: ScreenView, x: int, y: int, limit: int, text: Seq<char>) -> ScreenView {
    if 0 <= y < s.height && 0 <= x {
        ScreenView {
            width: s.width,
            height: s.height,
            cells: written_cells(s.cells, s.width, x, y, limit, text, s.bold, s.color),
            bold: s.bold,
            color: s.color,
            cursor: s.cursor,
        }
    } else {
        s
    }
}

/// The character at column `x` of row `y`.
pub open spec fn cell_at(s: ScreenView, x: int, y: int) -> Cell {
    s.cells[y * s.width + x]
}

/// The cells of a row lie within the cells of the screen, and their
/// indices are small.
pub proof fn lemma_row_fits(width: int, height: int, x: int, y: int, count: int)
    requires
        0 <= width <= u16::MAX,
        0 <= height <= u16::MAX,
        0 <= y < height,
        0 <= x,
        0 <= count,
        x + count <= width,
    ensures
        0 <= y * width,
        y * width + x + count <= width * height,
        width * height <= u16::MAX * u16::MAX,
        u16::MAX * u16::MAX == 0xfffe_0001,
{
    assert(0 <= y * width && y * width + width <= width * height && width * height <= u16::MAX
        * u16::MAX) by (nonlinear_arith)
        requires
            0 <= width <= u16::MAX,
            0 <= height <= u16::MAX,
            0 <= y < height,
    ;
}

/// A screen of characters.
pub struct Screen {
    width: usize,
    height: usize,
    cells: Vec<Cell>,
    bold: bool,
    color: Color,
    cursor: (usize, usize),
}

impl View for Screen {
    type V = ScreenView;

    closed spec fn view(&self) -> ScreenView {
        ScreenView {
            width: self.width as int,
            height: self.height as int,
            cells: self.cells@,
            bold: self.bold,
            color: self.color,
            cursor: (self.cursor.0 as int, self.cursor.1 as int),
        }
    }
}

impl Screen {
    /// Whether the screen is in a state that its own methods lead to: it
    /// has a cell for each position, and no more than `u16::MAX` columns
    /// and rows.
    pub closed spec fn wf(&self) -> bool {
        &&& self.width <= u16::MAX
        &&& self.height <= u16::MAX
        &&& self.cells@.len() == self.width * self.height
    }

    /// An empty screen of the given size.
    pub fn new(width: u16, height: u16) -> (screen: Screen)
        ensures
            screen.wf(),
            screen@ == empty_screen(width as int, height as int),
    {
        let mut cells: Vec<Cell> = Vec::new();
        proof {
            assert(width * height <= u16::MAX * u16::MAX) by (nonlinear_arith)
                requires
                    0 <= width <= u16::MAX,
                    0 <= height <= u16::MAX,
            ;
        }
        let size: usize = width as usize * height as usize;
        let mut k: usize = 0;
        while k < size
            invariant
                0 <= k <= size,
                cells@.len() == k,
                forall|j: int| 0 <= j < k ==> cells@[j] == blank(),
            decreases size - k,
        {
            cells.push(Cell { c: ' ', bold: false, color: Color::Default });
            k = k + 1;
        }
        let screen = Screen {
            width: width as usize,
            height: height as usize,
            cells,
            bold: false,
            color: Color::Default,
            cursor: (0, 0),
        };
        proof {
            assert(screen@.cells =~= empty_screen(width as int, height as int).cells);
        }
        screen
    }

    /// The number of columns.
    pub fn width(&self) -> (width: usize)
        ensures
            width == self@.width,
    {
        self.width
    }

    /// The number of rows.
    pub fn height(&self) -> (height: usize)
        ensures
            height == self@.height,
    {
        self.height
    }

    /// Where the cursor is shown: column and row.
    pub fn cursor(&self) -> (cursor: (usize, usize))
        ensures
            cursor.0 == self@.cursor.0,
            cursor.1 == self@.cursor.1,
    {
        self.cursor
    }

    /// The character at column `x` of row `y`.
    pub fn cell(&self, x: usize, y: usize) -> (cell: Cell)
        requires
            self.wf(),
            x < self@.width,
            y < self@.height,
        ensures
            cell == cell_at(self@, x as int, y as int),
    {
        proof {
            lemma_row_fits(self.width as int, self.height as int, x as int, y as int, 1);
        }
        self.cells[y * self.width + x]
    }

    /// Sets whether what is written next is bold; returns what was set.
    pub fn set_bold(&mut self, bold: bool) -> (previous: bool)
        requires
            old(self).wf(),
        ensures
            final(self).wf(),
            previous == old(self)@.bold,
            final(self)@ == (ScreenView { bold, ..old(self)@ }),
    {
        let previous = self.bold;
        self.bold = bold;
        previous
    }

    /// Sets the colour of what is written next; returns what was set.
    pub fn set_color(&mut self, color: Color) -> (previous: Color)
        requires
            old(self).wf(),
        ensures
            final(self).wf(),
            previous == old(self)@.color,
            final(self)@ == (ScreenView { color, ..old(self)@ }),
    {
        let previous = self.color;
        self.color = color;
        previous
    }

    /// Sets where the cursor is shown.
    pub fn set_cursor(&mut self, x: usize, y: usize)
        requires
            old(self).wf(),
        ensures
            final(self).wf(),
            final(self)@ == (ScreenView { cursor: (x as int, y as int), ..old(self)@ }),
    {
        self.cursor = (x, y);
    }

    /// Writes `text` at column `x` of row `y`, at most `limit` characters
    /// of it and none beyond the right edge. A row below the screen takes
    /// nothing.
    pub fn write(&mut self, x: usize, y: usize, limit: usize, text: &str)
        requires
            old(self).wf(),
        ensures
            final(self).wf(),
            final(self)@ == written(old(self)@, x as int, y as int, limit as int, text@),
    {
        if y >= self.height || x >= self.width {
            proof {
                assert(final(self)@.cells =~= written(
                    old(self)@,
                    x as int,
                    y as int,
                    limit as int,
                    text@,
                ).cells);
            }
            return ;
        }
        let room = self.width - x;
        let most = if limit < room {
            limit
        } else {
            room
        };
        let len = text.unicode_len();
        let count = if len < most {
            len
        } else {
            most
        };
        proof {
            lemma_row_fits(
                self.width as int,
                self.height as int,
                x as int,
                y as int,
                count as int,
            );
        }
        let start = y * self.width + x;
        let mut i: usize = 0;
        while i < count
            invariant
                0 <= i <= count,
                count <= text@.len(),
                start + count <= self.cells@.len(),
                start + count <= usize::MAX,
                start == y * old(self).width + x,
                count == shown(old(self).width as int, x as int, limit as int, text@),
                self.width == old(self).width,
                self.height == old(self).height,
                self.bold == old(self).bold,
                self.color == old(self).color,
                self.cursor == old(self).cursor,
                self.cells@.len() == old(self).cells@.len(),
                forall|k: int|
                    0 <= k < self.cells@.len() ==> self.cells@[k] == if start <= k < start + i {
                        Cell { c: text@[k - start], bold: self.bold, color: self.color }
                    } else {
                        old(self).cells@[k]
                    },
            decreases count - i,
        {
            let c = text.get_char(i);
            self.cells[start + i] = Cell { c, bold: self.bold, color: self.color };
            i = i + 1;
        }
        proof {
            let after = written(old(self)@, x as int, y as int, limit as int, text@);
            assert(after.cells.len() == self.cells@.len());
            assert forall|k: int| 0 <= k < self.cells@.len() implies self.cells@[k]
                == after.cells[k] by {}
            assert(final(self)@.cells =~= after.cells);
        }
    }
}

} // verus!
