//! The terminal-surface command language and its mathematical model.
//!
//! Every drawing operation of the canvas is expressed as a sequence of
//! [`Command`] values: relative cursor motion, anchor handling, and raw text.
//! [`ScreenView`] gives those commands an exact meaning over a character grid
//! anchored at the canvas's bottom row, and [`Screen`] is a verified
//! in-memory surface that applies them, standing in for a live terminal.
//!
//! The model is anchored and clipped: the cursor is tracked relative to the
//! canvas and saturates one step beyond each edge, and characters written
//! outside the canvas are dropped. A live terminal differs at the edges: it
//! may wrap long text, and a placement whose lines run past the canvas's
//! bottom row can scroll the screen (moving the anchor itself), where this
//! model simply drops those lines. The canvas operations clip every line to
//! the canvas width, so within the canvas's rows the two agree.

use vstd::prelude::*;

verus! {

/// One instruction for the terminal surface.
///
/// The text the canvas operations emit never holds a line break — a break
/// is always the explicit [`Command::LineFeed`] — with one exception: a
/// line-break character handed to a single-character placement (a `put` or
/// a shape symbol) is passed through, and the model writes it as an
/// ordinary grid cell where a live terminal would move the cursor instead.
pub enum Command {
    /// Save the current cursor position as the anchor.
    Save,
    /// Return the cursor to the saved anchor: the first column of the
    /// canvas's bottom row.
    Restore,
    /// Move the cursor up this many rows.
    Up(u16),
    /// Move the cursor down this many rows.
    Down(u16),
    /// Move the cursor right this many columns, writing nothing.
    Right(u16),
    /// Move to the next row down, back at the first column.
    LineFeed,
    /// Write these characters at the cursor, advancing it past them.
    Text(Vec<char>),
}

/// The mathematical image of a [`Command`].
pub ghost enum Cmd {
    Save,
    Restore,
    Up(int),
    Down(int),
    Right(int),
    LineFeed,
    Text(Seq<char>),
}

impl View for Command {
    type V = Cmd;

    open spec fn view(&self) -> Cmd {
        match self {
            Command::Save => Cmd::Save,
            Command::Restore => Cmd::Restore,
            Command::Up(n) => Cmd::Up(*n as int),
            Command::Down(n) => Cmd::Down(*n as int),
            Command::Right(n) => Cmd::Right(*n as int),
            Command::LineFeed => Cmd::LineFeed,
            Command::Text(t) => Cmd::Text(t@),
        }
    }
}

/// The views of a sequence of commands.
pub open spec fn cmd_views(s: Seq<Command>) -> Seq<Cmd> {
    s.map_values(|c: Command| c@)
}

/// The state of the canvas region of a terminal: the character grid and the
/// cursor, both relative to the anchor.
///
/// A canvas of logical size `width x height` addresses columns `0..=width`
/// and rows `0..=height`; row `0` is the top of the region and row `height`
/// is the anchor row at the bottom. The cursor saturates one step beyond
/// each edge (`row == -1` above, `row == height + 1` below,
/// `col == width + 1` past the right edge).
pub ghost struct ScreenView {
    pub width: int,
    pub height: int,
    pub grid: Seq<Seq<char>>,
    pub row: int,
    pub col: int,
}

/// `line` with `t` written over it starting at column `col`; characters that
/// would land outside the line are dropped.
pub open spec fn overlay(line: Seq<char>, col: int, t: Seq<char>) -> Seq<char> {
    line.map(|i: int, ch: char| if col <= i < col + t.len() { t[i - col] } else { ch })
}

/// `grid` with `t` written over row `row` starting at column `col`;
/// characters that would land outside the grid are dropped.
pub open spec fn place(grid: Seq<Seq<char>>, row: int, col: int, t: Seq<char>) -> Seq<Seq<char>> {
    grid.map(|r: int, line: Seq<char>| if r == row { overlay(line, col, t) } else { line })
}

impl ScreenView {
    pub open spec fn wf(self) -> bool {
        &&& 0 <= self.width <= u16::MAX
        &&& 0 <= self.height <= u16::MAX
        &&& self.grid.len() == self.height + 1
        &&& (forall|r: int|
            0 <= r < self.grid.len() ==> (#[trigger] self.grid[r]).len() == self.width + 1)
        &&& -1 <= self.row <= self.height + 1
        &&& 0 <= self.col <= self.width + 1
    }

    /// The effect of one command.
    pub open spec fn step(self, c: Cmd) -> ScreenView {
        match c {
            Cmd::Save => self,
            Cmd::Restore => ScreenView { row: self.height, col: 0, ..self },
            Cmd::Up(n) => ScreenView {
                row: if self.row - n < -1 { -1 } else { self.row - n },
                ..self
            },
            Cmd::Down(n) => ScreenView {
                row: if self.row + n > self.height + 1 { self.height + 1 } else { self.row + n },
                ..self
            },
            Cmd::Right(n) => ScreenView {
                col: if self.col + n > self.width + 1 { self.width + 1 } else { self.col + n },
                ..self
            },
            Cmd::LineFeed => ScreenView {
                row: if self.row + 1 > self.height + 1 { self.height + 1 } else { self.row + 1 },
                col: 0,
                ..self
            },
            Cmd::Text(t) => ScreenView {
                grid: place(self.grid, self.row, self.col, t),
                col: if self.col + t.len() > self.width + 1 {
                    self.width + 1
                } else {
                    self.col + t.len()
                },
                ..self
            },
        }
    }

    /// The effect of a command sequence, applied left to right.
    pub open spec fn run(self, cs: Seq<Cmd>) -> ScreenView
        decreases cs.len(),
    {
        if cs.len() == 0 {
            self
        } else {
            self.run(cs.drop_last()).step(cs.last())
        }
    }
}

/// Commands with non-negative moves and counts; every command a canvas emits
/// is of this form.
pub open spec fn cmd_ok(c: Cmd) -> bool {
    match c {
        Cmd::Up(n) => 0 <= n,
        Cmd::Down(n) => 0 <= n,
        Cmd::Right(n) => 0 <= n,
        _ => true,
    }
}

pub broadcast proof fn lemma_step_wf(s: ScreenView, c: Cmd)
    requires
        s.wf(),
        cmd_ok(c),
    ensures
        (#[trigger] s.step(c)).wf(),
        s.step(c).width == s.width,
        s.step(c).height == s.height,
{
    match c {
        Cmd::Text(t) => {
            assert(s.step(c).grid.len() == s.grid.len());
        },
        _ => {},
    }
}

/// Running a concatenation is running the parts in order.
pub proof fn lemma_run_append(s: ScreenView, a: Seq<Cmd>, b: Seq<Cmd>)
    ensures
        s.run(a + b) == s.run(a).run(b),
    decreases b.len(),
{
    if b.len() == 0 {
        assert(a + b =~= a);
    } else {
        lemma_run_append(s, a, b.drop_last());
        assert((a + b).drop_last() =~= a + b.drop_last());
        assert((a + b).last() == b.last());
    }
}

/// A verified in-memory terminal surface: a character grid the size of one
/// canvas, to which command sequences are applied exactly as
/// [`ScreenView::run`] describes. It stands in for a live terminal in tests.
pub struct Screen {
    width: u16,
    height: u16,
    cells: Vec<Vec<char>>,
    row: i32,
    col: i32,
}

/// The grid a vector of rows holds.
spec fn rows_view(cells: Vec<Vec<char>>) -> Seq<Seq<char>> {
    Seq::new(cells@.len(), |i: int| cells@[i]@)
}

impl View for Screen {
    type V = ScreenView;

    closed spec fn view(&self) -> ScreenView {
        ScreenView {
            width: self.width as int,
            height: self.height as int,
            grid: rows_view(self.cells),
            row: self.row as int,
            col: self.col as int,
        }
    }
}

impl Screen {
    /// A blank screen for a canvas of the given logical size, with the cursor
    /// at the anchor, as it stands right after the canvas is created.
    pub fn new(width: u16, height: u16) -> (s: Screen)
        ensures
            s@.wf(),
            s@.width == width,
            s@.height == height,
            s@.row == height,
            s@.col == 0,
            forall|r: int, c: int|
                0 <= r <= height && 0 <= c <= width ==> s@.grid[r][c] == ' ',
    {
        let cols: usize = width as usize + 1;
        let mut cells: Vec<Vec<char>> = Vec::new();
        let mut r: usize = 0;
        while r < height as usize + 1
            invariant
                cols == width + 1,
                r == cells@.len(),
                r <= height + 1,
                forall|i: int| 0 <= i < r ==> (#[trigger] cells@[i])@.len() == width + 1,
                forall|i: int, c: int| 0 <= i < r && 0 <= c <= width ==> cells@[i]@[c] == ' ',
            decreases height + 1 - r,
        {
            let mut line: Vec<char> = Vec::new();
            let mut k: usize = 0;
            while k < cols
                invariant
                    k == line@.len(),
                    k <= cols,
                    forall|j: int| 0 <= j < k ==> line@[j] == ' ',
                decreases cols - k,
            {
                line.push(' ');
                k += 1;
            }
            let ghost prev = cells@;
            cells.push(line);
            assert(cells@[r as int] == line);
            assert(forall|i: int| 0 <= i < r ==> cells@[i] == prev[i]);
            r += 1;
        }
        Screen { width, height, cells, row: height as i32, col: 0 }
    }

    /// The character at grid column `x`, row `y` (row `0` is the top).
    pub fn get(&self, x: u16, y: u16) -> (c: char)
        requires
            self@.wf(),
            x <= self@.width,
            y <= self@.height,
        ensures
            c == self@.grid[y as int][x as int],
    {
        assert(self@.grid[y as int].len() == self@.width + 1);
        self.cells[y as usize][x as usize]
    }

    /// Apply one command.
    pub fn apply(&mut self, cmd: &Command)
        requires
            old(self)@.wf(),
        ensures
            final(self)@ == old(self)@.step(cmd@),
            final(self)@.wf(),
    {
        proof {
            lemma_step_wf(old(self)@, cmd@);
        }
        match cmd {
            Command::Save => {},
            Command::Restore => {
                self.row = self.height as i32;
                self.col = 0;
            },
            Command::Up(n) => {
                let target: i32 = self.row - *n as i32;
                self.row = if target < -1 { -1 } else { target };
            },
            Command::Down(n) => {
                let limit: i32 = self.height as i32 + 1;
                let target: i32 = self.row + *n as i32;
                self.row = if target > limit { limit } else { target };
            },
            Command::Right(n) => {
                let limit: i32 = self.width as i32 + 1;
                let target: i32 = self.col + *n as i32;
                self.col = if target > limit { limit } else { target };
            },
            Command::LineFeed => {
                let limit: i32 = self.height as i32 + 1;
                let target: i32 = self.row + 1;
                self.row = if target > limit { limit } else { target };
                self.col = 0;
            },
            Command::Text(t) => {
                self.write_text(t);
            },
        }
    }

    /// Write a run of characters at the cursor: the grid part of
    /// [`Cmd::Text`].
    fn write_text(&mut self, t: &Vec<char>)
        requires
            old(self)@.wf(),
        ensures
            final(self)@ == old(self)@.step(Cmd::Text(t@)),
            final(self)@.wf(),
    {
        let ghost s0 = self@;
        let mut i: usize = 0;
        while i < t.len()
            invariant
                s0.wf(),
                i <= t@.len(),
                self.width == s0.width,
                self.height == s0.height,
                self.row == s0.row,
                self.col == s0.col,
                rows_view(self.cells) =~~= place(s0.grid, s0.row, s0.col, t@.take(i as int)),
            decreases t@.len() - i,
        {
            let ghost gpre = rows_view(self.cells);
            if 0 <= self.row && self.row <= self.height as i32 && self.col as usize
                <= self.width as usize && i <= self.width as usize - self.col as usize {
                let c: usize = self.col as usize + i;
                let r: usize = self.row as usize;
                proof {
                    assert(gpre.len() == s0.grid.len());
                    assert(self.cells@.len() == s0.height + 1);
                    assert(s0.grid[r as int].len() == s0.width + 1);
                    assert(gpre[r as int].len() == s0.width + 1);
                    assert(self.cells@[r as int]@ == gpre[r as int]);
                }
                let ch: char = t[i];
                let line = vstd::std_specs::vec::vec_index_mut(&mut self.cells, r);
                line.set(c, ch);
                assert(rows_view(self.cells) =~~= gpre.update(
                    r as int,
                    gpre[r as int].update(c as int, t@[i as int]),
                ));
            }
            assert(rows_view(self.cells) =~~= place(
                s0.grid,
                s0.row,
                s0.col,
                t@.take(i + 1),
            )) by {
                assert(t@.take(i + 1)[i as int] == t@[i as int]);
                assert(forall|k: int| 0 <= k < i ==> t@.take(i + 1)[k] == t@.take(i as int)[k]);
            }
            i += 1;
        }
        assert(t@.take(t@.len() as int) =~= t@);
        let limit: i32 = self.width as i32 + 1;
        if t.len() >= (limit - self.col) as usize {
            self.col = limit;
        } else {
            self.col = self.col + t.len() as i32;
        }
    }

    /// Apply a whole command sequence, left to right.
    pub fn apply_all(&mut self, cmds: &Vec<Command>)
        requires
            old(self)@.wf(),
        ensures
            final(self)@ == old(self)@.run(cmd_views(cmds@)),
            final(self)@.wf(),
    {
        let ghost s0 = self@;
        let mut i: usize = 0;
        while i < cmds.len()
            invariant
                s0.wf(),
                i <= cmds@.len(),
                self@.wf(),
                self@ == s0.run(cmd_views(cmds@).take(i as int)),
            decreases cmds@.len() - i,
        {
            self.apply(&cmds[i]);
            proof {
                assert(cmd_views(cmds@).take(i + 1).drop_last() =~= cmd_views(cmds@).take(
                    i as int,
                ));
                assert(cmd_views(cmds@).take(i + 1).last() == cmds@[i as int]@);
            }
            i += 1;
        }
        assert(cmd_views(cmds@).take(cmds@.len() as int) =~= cmd_views(cmds@));
    }
}

} // verus!
