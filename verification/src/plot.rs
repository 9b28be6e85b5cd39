//! The canvas: clip bounds, the anchor-relative cursor protocol, and text
//! placement.
//!
//! A `Plot` owns a logical `width x height` grid and a clip rectangle.
//! Each operation returns the exact [`Command`] sequence that realises it on
//! a terminal surface whose anchor sits at the canvas's bottom row; what
//! those commands do to the surface is given by [`crate::screen::ScreenView`]
//! and the effect lemmas below.

use vstd::prelude::*;
use vstd::string::StrSliceExecFns;

use crate::data::PVec2;
use crate::screen::{
    cmd_views, lemma_run_append, lemma_step_wf, overlay, place, Cmd, Command, ScreenView,
};
use crate::text::{
    clip_line, is_blank_spec, blank_break_at, nonblank_break_at, lemma_blank_break_at,
    lemma_nonblank_break_at, lemma_line_break_at, line_break_at, chars_of, copy_range, find_blank,
    find_nonblank, split_lines, split_lines_spec, lines_view, repeat_char, repeat_chars,
};

verus! {

/// `n` constrained to `[lower, upper]`; if the range is empty, `lower` wins.
pub open spec fn clamp_spec(n: int, lower: int, upper: int) -> int {
    let m = if n < upper {
        n
    } else {
        upper
    };
    if m < lower {
        lower
    } else {
        m
    }
}

/// A rectangular drawing area: a logical size and a clip rectangle, used
/// against a terminal surface anchored at the area's bottom row.
pub struct Plot {
    pub width: u16,
    pub height: u16,
    pub x_min: u16,
    pub x_max: u16,
    pub y_min: u16,
    pub y_max: u16,
}

impl Plot {
    /// The clip rectangle lies within the logical extent.
    pub open spec fn wf(self) -> bool {
        &&& self.x_min <= self.x_max <= self.width
        &&& self.y_min <= self.y_max <= self.height
    }

    /// `point` constrained to this plot's clip rectangle, each axis
    /// separately.
    pub open spec fn clamp_to_plot_spec(self, point: PVec2) -> PVec2 {
        PVec2 {
            x: clamp_spec(point.x as int, self.x_min as int, self.x_max as int) as u16,
            y: clamp_spec(point.y as int, self.y_min as int, self.y_max as int) as u16,
        }
    }

    /// Constrain a number within a range; values outside come back as the
    /// nearer end.
    pub fn clamp(n: u16, lower: u16, upper: u16) -> (r: u16)
        ensures
            r == clamp_spec(n as int, lower as int, upper as int),
    {
        let m = if n < upper {
            n
        } else {
            upper
        };
        if m < lower {
            lower
        } else {
            m
        }
    }

    /// Constrain a point within a minimum and maximum XY range, each
    /// dimension separately.
    pub fn clamp_point(point: &PVec2, x_min: u16, x_max: u16, y_min: u16, y_max: u16) -> (r: PVec2)
        ensures
            r.x == clamp_spec(point.x as int, x_min as int, x_max as int),
            r.y == clamp_spec(point.y as int, y_min as int, y_max as int),
    {
        PVec2 {
            x: Self::clamp(point.x, x_min, x_max),
            y: Self::clamp(point.y, y_min, y_max),
        }
    }

    /// Constrain a point within the clip rectangle of this plot area.
    pub fn clamp_to_plot(&self, point: &PVec2) -> (r: PVec2)
        ensures
            r == self.clamp_to_plot_spec(*point),
    {
        Self::clamp_point(point, self.x_min, self.x_max, self.y_min, self.y_max)
    }

    /// Cut off the end of a string if it is longer than `max_len`
    /// characters.
    pub fn clip<'a>(input: &'a str, max_len: u16) -> (r: &'a str)
        ensures
            r@ == clip_line(input@, max_len as int),
    {
        let n = input.unicode_len();
        if n <= max_len as usize {
            input
        } else {
            let r = input.substring_char(0, max_len as usize);
            assert(input@.subrange(0, max_len as int) =~= input@.take(max_len as int));
            r
        }
    }

    /// A point `x` in from the left and `y` up from the bottom of the plot
    /// area, clamped to the clip rectangle.
    pub fn origin_bl(&self, x: u16, y: u16) -> (r: PVec2)
        requires
            y <= self.height,
        ensures
            r == self.clamp_to_plot_spec(PVec2 { x, y: (self.height - y) as u16 }),
    {
        self.clamp_to_plot(&PVec2 { x, y: self.height - y })
    }

    /// A point `x` in from the right and `y` up from the bottom of the plot
    /// area, clamped to the clip rectangle.
    pub fn origin_br(&self, x: u16, y: u16) -> (r: PVec2)
        requires
            x <= self.width,
            y <= self.height,
        ensures
            r == self.clamp_to_plot_spec(
                PVec2 { x: (self.width - x) as u16, y: (self.height - y) as u16 },
            ),
    {
        self.clamp_to_plot(&PVec2 { x: self.width - x, y: self.height - y })
    }
}

/// Law: clamping to the clip rectangle is idempotent, for every point and
/// every plot.
pub proof fn lemma_clamp_to_plot_idempotent(plot: Plot, p: PVec2)
    ensures
        plot.clamp_to_plot_spec(plot.clamp_to_plot_spec(p)) == plot.clamp_to_plot_spec(p),
{
}

/// The commands that place one character: home to the anchor, climb to the
/// clamped point's row, step right to its column, write.
pub open spec fn put_cmds(plot: Plot, c: char, point: PVec2) -> Seq<Cmd> {
    let a = plot.clamp_to_plot_spec(point);
    seq![
        Cmd::Restore,
        Cmd::Up(plot.height - a.y),
        Cmd::Right(a.x as int),
        Cmd::Text(seq![c]),
    ]
}

/// The per-line commands of opaque text placement: write the line, drop to
/// the next row, and return to the start column.
pub open spec fn line_cmds(lines: Seq<Seq<char>>, x: int) -> Seq<Cmd>
    decreases lines.len(),
{
    if lines.len() == 0 {
        Seq::empty()
    } else {
        seq![Cmd::Text(lines[0]), Cmd::LineFeed, Cmd::Right(x)] + line_cmds(lines.skip(1), x)
    }
}

pub proof fn lemma_line_cmds_append(a: Seq<Seq<char>>, b: Seq<Seq<char>>, x: int)
    ensures
        line_cmds(a + b, x) == line_cmds(a, x) + line_cmds(b, x),
    decreases a.len(),
{
    if a.len() == 0 {
        assert(a + b =~= b);
        assert(line_cmds(a, x) + line_cmds(b, x) =~= line_cmds(b, x));
    } else {
        lemma_line_cmds_append(a.skip(1), b, x);
        assert((a + b).skip(1) =~= a.skip(1) + b);
        assert(seq![Cmd::Text(a[0]), Cmd::LineFeed, Cmd::Right(x)] + (line_cmds(a.skip(1), x)
            + line_cmds(b, x)) =~= (seq![Cmd::Text(a[0]), Cmd::LineFeed, Cmd::Right(x)]
            + line_cmds(a.skip(1), x)) + line_cmds(b, x));
    }
}

/// The lines of `content`, each cut to the columns available from `x` on a
/// plot `width` columns wide.
pub open spec fn clipped_lines(content: Seq<char>, width: int, x: int) -> Seq<Seq<char>> {
    split_lines_spec(content).map_values(|l: Seq<char>| clip_line(l, width - x))
}

/// The commands of [`Plot::put_str`]: position at the clamped start, then
/// write each line, opaquely.
pub open spec fn put_str_cmds(plot: Plot, content: Seq<char>, start: PVec2) -> Seq<Cmd> {
    let a = plot.clamp_to_plot_spec(start);
    seq![Cmd::Restore, Cmd::Up(plot.height - a.y), Cmd::Right(a.x as int)] + line_cmds(
        clipped_lines(content, plot.width as int, a.x as int),
        a.x as int,
    )
}

/// The commands that place one line transparently: alternating runs of
/// non-whitespace text, written, and whitespace, skipped by a bare cursor
/// move. Trailing whitespace emits nothing, so whatever the canvas already
/// shows on those cells survives.
pub open spec fn transparent_cmds(line: Seq<char>) -> Seq<Cmd>
    decreases line.len() via transparent_cmds_decreases
{
    if line.len() == 0 {
        Seq::empty()
    } else {
        let i = blank_break_at(line);
        if i == line.len() {
            seq![Cmd::Text(line)]
        } else {
            let j = nonblank_break_at(line.skip(i));
            if i + j == line.len() {
                seq![Cmd::Text(line.take(i))]
            } else {
                seq![Cmd::Text(line.take(i)), Cmd::Right(j)] + transparent_cmds(line.skip(i + j))
            }
        }
    }
}

#[via_fn]
proof fn transparent_cmds_decreases(line: Seq<char>) {
    if line.len() > 0 {
        lemma_blank_break_at(line);
        let i = blank_break_at(line);
        if i < line.len() {
            lemma_nonblank_break_at(line.skip(i));
            assert(line.skip(i)[0] == line[i]);
        }
    }
}

/// The per-line commands of transparent text placement.
pub open spec fn tline_cmds(lines: Seq<Seq<char>>, x: int) -> Seq<Cmd>
    decreases lines.len(),
{
    if lines.len() == 0 {
        Seq::empty()
    } else {
        transparent_cmds(lines[0]) + seq![Cmd::LineFeed, Cmd::Right(x)] + tline_cmds(
            lines.skip(1),
            x,
        )
    }
}

pub proof fn lemma_tline_cmds_append(a: Seq<Seq<char>>, b: Seq<Seq<char>>, x: int)
    ensures
        tline_cmds(a + b, x) == tline_cmds(a, x) + tline_cmds(b, x),
    decreases a.len(),
{
    if a.len() == 0 {
        assert(a + b =~= b);
        assert(tline_cmds(a, x) + tline_cmds(b, x) =~= tline_cmds(b, x));
    } else {
        lemma_tline_cmds_append(a.skip(1), b, x);
        assert((a + b).skip(1) =~= a.skip(1) + b);
        assert((a + b)[0] == a[0]);
        assert(transparent_cmds(a[0]) + seq![Cmd::LineFeed, Cmd::Right(x)] + (tline_cmds(
            a.skip(1),
            x,
        ) + tline_cmds(b, x)) =~= (transparent_cmds(a[0]) + seq![Cmd::LineFeed, Cmd::Right(x)]
            + tline_cmds(a.skip(1), x)) + tline_cmds(b, x));
    }
}

/// The commands of [`Plot::put_str_transparent`]: position at the clamped
/// start, then write each line transparently.
pub open spec fn put_str_transparent_cmds(plot: Plot, content: Seq<char>, start: PVec2) -> Seq<
    Cmd,
> {
    let a = plot.clamp_to_plot_spec(start);
    seq![Cmd::Restore, Cmd::Up(plot.height - a.y), Cmd::Right(a.x as int)] + tline_cmds(
        clipped_lines(content, plot.width as int, a.x as int),
        a.x as int,
    )
}

/// Append to `cmds` the commands that place `line` transparently.
fn push_transparent_line(cmds: &mut Vec<Command>, line: &Vec<char>)
    requires
        line@.len() <= u16::MAX,
    ensures
        cmd_views(final(cmds)@) == cmd_views(old(cmds)@) + transparent_cmds(line@),
{
    let ghost base = cmd_views(old(cmds)@);
    let ghost mut acc: Seq<Cmd> = Seq::empty();
    proof {
        assert(base + acc =~= base);
        assert(line@.skip(0) =~= line@);
        assert(acc + transparent_cmds(line@) =~= transparent_cmds(line@));
    }
    let mut pos: usize = 0;
    let mut done: bool = false;
    while !done
        invariant
            line@.len() <= u16::MAX,
            pos <= line@.len(),
            cmd_views(cmds@) == base + acc,
            !done ==> transparent_cmds(line@) == acc + transparent_cmds(line@.skip(pos as int)),
            done ==> transparent_cmds(line@) == acc,
        decreases line@.len() - pos + (if done { 0int } else { 1int }),
    {
        let ghost rest = line@.skip(pos as int);
        proof {
            assert(forall|k: int| 0 <= k < rest.len() ==> rest[k] == line@[pos + k]);
        }
        if pos == line.len() {
            proof {
                assert(transparent_cmds(rest) =~= Seq::<Cmd>::empty());
                assert(acc + Seq::<Cmd>::empty() =~= acc);
            }
            done = true;
        } else {
            let i = find_blank(line, pos);
            proof {
                lemma_blank_break_at(rest);
                assert(blank_break_at(rest) == i - pos) by {
                    if blank_break_at(rest) < i - pos {
                        assert(!is_blank_spec(line@[pos + blank_break_at(rest)]));
                    } else if i - pos < blank_break_at(rest) {
                        assert(i < line@.len());
                        assert(!is_blank_spec(rest[i - pos]));
                    }
                }
            }
            if i == line.len() {
                let run = copy_range(line, pos, line.len());
                proof {
                    assert(run@ =~= rest);
                    assert(transparent_cmds(rest) == seq![Cmd::Text(rest)]);
                }
                let ghost pre = cmds@;
                cmds.push(Command::Text(run));
                proof {
                    lemma_cmd_views_push(pre, Command::Text(run));
                    acc = acc + seq![Cmd::Text(rest)];
                    assert(cmd_views(cmds@) =~= base + acc);
                }
                done = true;
            } else {
                let ghost rest2 = rest.skip(i - pos);
                let j = find_nonblank(line, i);
                proof {
                    assert(forall|k: int| 0 <= k < rest2.len() ==> rest2[k] == line@[i + k]);
                    lemma_nonblank_break_at(rest2);
                    assert(nonblank_break_at(rest2) == j - i) by {
                        if nonblank_break_at(rest2) < j - i {
                            assert(is_blank_spec(line@[i + nonblank_break_at(rest2)]));
                        } else if j - i < nonblank_break_at(rest2) {
                            assert(j < line@.len());
                            assert(is_blank_spec(rest2[j - i]));
                        }
                    }
                }
                let run = copy_range(line, pos, i);
                proof {
                    assert(run@ =~= rest.take(i - pos));
                }
                if j == line.len() {
                    proof {
                        assert(transparent_cmds(rest) == seq![Cmd::Text(rest.take(i - pos))]);
                    }
                    let ghost pre = cmds@;
                    cmds.push(Command::Text(run));
                    proof {
                        lemma_cmd_views_push(pre, Command::Text(run));
                        acc = acc + seq![Cmd::Text(rest.take(i - pos))];
                        assert(cmd_views(cmds@) =~= base + acc);
                    }
                    done = true;
                } else {
                    proof {
                        assert(transparent_cmds(rest) == seq![
                            Cmd::Text(rest.take(i - pos)),
                            Cmd::Right(j - i),
                        ] + transparent_cmds(rest.skip(i - pos + (j - i))));
                        assert(rest.skip(i - pos + (j - i)) =~= line@.skip(j as int));
                    }
                    let ghost pre = cmds@;
                    cmds.push(Command::Text(run));
                    cmds.push(Command::Right((j - i) as u16));
                    proof {
                        lemma_cmd_views_push(pre, Command::Text(run));
                        lemma_cmd_views_push(
                            pre.push(Command::Text(run)),
                            Command::Right((j - i) as u16),
                        );
                        acc = acc + seq![Cmd::Text(rest.take(i - pos)), Cmd::Right(j - i)];
                        assert(cmd_views(cmds@) =~= base + acc);
                        assert(transparent_cmds(line@) =~= acc + transparent_cmds(
                            line@.skip(j as int),
                        )) by {
                            assert((acc + seq![Cmd::Text(rest.take(i - pos)), Cmd::Right(j - i)])
                                + transparent_cmds(line@.skip(j as int)) =~= acc + (seq![
                                Cmd::Text(rest.take(i - pos)),
                                Cmd::Right(j - i),
                            ] + transparent_cmds(line@.skip(j as int))));
                        }
                    }
                    pos = j;
                }
            }
        }
    }
}

impl Plot {
    /// Put a string on the plot area without overwriting existing content
    /// under its whitespace.
    pub fn put_str_transparent(&self, content: &str, start: &PVec2) -> (r: Vec<Command>)
        requires
            self.wf(),
        ensures
            cmd_views(r@) == put_str_transparent_cmds(*self, content@, *start),
    {
        let cs = chars_of(content);
        self.put_chars_transparent(&cs, start)
    }

    /// [`Plot::put_str_transparent`] over a character vector.
    pub fn put_chars_transparent(&self, content: &Vec<char>, start: &PVec2) -> (r: Vec<Command>)
        requires
            self.wf(),
        ensures
            cmd_views(r@) == put_str_transparent_cmds(*self, content@, *start),
    {
        let a = self.clamp_to_plot(start);
        let avail: u16 = self.width - a.x;
        let mut cmds: Vec<Command> = Vec::new();
        cmds.push(Command::Restore);
        cmds.push(Command::Up(self.height - a.y));
        cmds.push(Command::Right(a.x));
        let ghost prefix = seq![
            Cmd::Restore,
            Cmd::Up(self.height - a.y as int),
            Cmd::Right(a.x as int),
        ];
        let lines = split_lines(content);
        let ghost cl = clipped_lines(content@, self.width as int, a.x as int);
        assert(cl.len() == lines@.len());
        let mut i: usize = 0;
        while i < lines.len()
            invariant
                i <= lines@.len(),
                avail == self.width - a.x,
                cl == clipped_lines(content@, self.width as int, a.x as int),
                cl.len() == lines@.len(),
                lines_view(lines@) == split_lines_spec(content@),
                cmd_views(cmds@) =~= prefix + tline_cmds(cl.take(i as int), a.x as int),
            decreases lines@.len() - i,
        {
            let line = &lines[i];
            let to: usize = if line.len() < avail as usize {
                line.len()
            } else {
                avail as usize
            };
            let clipped = copy_range(line, 0, to);
            proof {
                assert(lines_view(lines@)[i as int] == line@);
                assert(cl[i as int] == clip_line(line@, avail as int));
                assert(clipped@ =~= clip_line(line@, avail as int));
            }
            push_transparent_line(&mut cmds, &clipped);
            let ghost pre = cmds@;
            cmds.push(Command::LineFeed);
            cmds.push(Command::Right(a.x));
            proof {
                lemma_cmd_views_push(pre, Command::LineFeed);
                lemma_cmd_views_push(pre.push(Command::LineFeed), Command::Right(a.x));
                lemma_tline_cmds_append(cl.take(i as int), seq![cl[i as int]], a.x as int);
                assert(cl.take(i as int) + seq![cl[i as int]] =~= cl.take(i + 1));
                assert(seq![cl[i as int]].skip(1) =~= Seq::<Seq<char>>::empty());
                assert(tline_cmds(Seq::<Seq<char>>::empty(), a.x as int) == Seq::<Cmd>::empty());
                assert(tline_cmds(seq![cl[i as int]], a.x as int) =~= transparent_cmds(
                    cl[i as int],
                ) + seq![Cmd::LineFeed, Cmd::Right(a.x as int)]);
                assert(cmd_views(cmds@) =~= prefix + tline_cmds(cl.take(i + 1), a.x as int));
            }
            i += 1;
        }
        assert(cl.take(cl.len() as int) =~= cl);
        cmds
    }
}

impl Plot {
    /// Create a new plot area of a specified width and height, together with
    /// the commands that prepare the terminal for it: scroll up enough blank
    /// rows, then save the anchor at the bottom.
    pub fn new(width: u16, height: u16) -> (r: (Plot, Vec<Command>))
        ensures
            r.0 == (Plot { width, height, x_min: 0, x_max: width, y_min: 0, y_max: height }),
            r.0.wf(),
            cmd_views(r.1@) == feed_cmds(height as int) + seq![Cmd::Save],
    {
        let mut cmds: Vec<Command> = Vec::new();
        let mut i: usize = 0;
        while i < height as usize
            invariant
                i <= height,
                cmd_views(cmds@) =~= feed_cmds(i as int),
            decreases height - i,
        {
            cmds.push(Command::LineFeed);
            proof {
                lemma_feed_cmds_len(i as int);
                assert(cmd_views(cmds@) =~= feed_cmds(i + 1));
            }
            i += 1;
        }
        cmds.push(Command::Save);
        assert(cmd_views(cmds@) =~= feed_cmds(height as int) + seq![Cmd::Save]);
        (Plot { width, height, x_min: 0, x_max: width, y_min: 0, y_max: height }, cmds)
    }

    /// Resize the plot area. The old handle is consumed: its anchor is no
    /// longer meaningful once the returned commands have re-anchored the
    /// surface, so only the new handle remains usable.
    pub fn resize(self, width: u16, height: u16) -> (r: (Plot, Vec<Command>))
        ensures
            r.0 == (Plot { width, height, x_min: 0, x_max: width, y_min: 0, y_max: height }),
            r.0.wf(),
            cmd_views(r.1@) == seq![Cmd::Restore, Cmd::Up(self.height as int)] + feed_cmds(
                height as int,
            ) + seq![Cmd::Save],
    {
        let mut cmds: Vec<Command> = Vec::new();
        cmds.push(Command::Restore);
        cmds.push(Command::Up(self.height));
        let mut i: usize = 0;
        while i < height as usize
            invariant
                i <= height,
                cmd_views(cmds@) =~= seq![Cmd::Restore, Cmd::Up(self.height as int)] + feed_cmds(
                    i as int,
                ),
            decreases height - i,
        {
            let ghost pre = cmds@;
            cmds.push(Command::LineFeed);
            proof {
                lemma_cmd_views_push(pre, Command::LineFeed);
                lemma_feed_cmds_len(i as int);
                lemma_feed_cmds_len(i + 1);
                assert(cmd_views(cmds@) =~= seq![Cmd::Restore, Cmd::Up(self.height as int)]
                    + feed_cmds(i + 1));
            }
            i += 1;
        }
        cmds.push(Command::Save);
        assert(cmd_views(cmds@) =~= seq![Cmd::Restore, Cmd::Up(self.height as int)] + feed_cmds(
            height as int,
        ) + seq![Cmd::Save]);
        (Plot { width, height, x_min: 0, x_max: width, y_min: 0, y_max: height }, cmds)
    }

    /// The commands that overwrite the whole `width x height` extent with
    /// blanks. This deliberately ignores the clip rectangle.
    pub fn clear(&self) -> (r: Vec<Command>)
        ensures
            cmd_views(r@) == seq![Cmd::Restore, Cmd::Up(self.height as int)] + clear_row_cmds(
                self.width as int,
                self.height as int,
            ),
    {
        let mut cmds: Vec<Command> = Vec::new();
        cmds.push(Command::Restore);
        cmds.push(Command::Up(self.height));
        let mut i: usize = 0;
        while i < self.height as usize
            invariant
                i <= self.height,
                cmd_views(cmds@) =~= seq![Cmd::Restore, Cmd::Up(self.height as int)]
                    + clear_row_cmds(self.width as int, i as int),
            decreases self.height - i,
        {
            let blanks = repeat_chars(' ', self.width as usize);
            cmds.push(Command::Text(blanks));
            cmds.push(Command::LineFeed);
            proof {
                lemma_clear_row_cmds_snoc(self.width as int, i + 1);
                assert(cmd_views(cmds@) =~= (seq![Cmd::Restore, Cmd::Up(self.height as int)]
                    + clear_row_cmds(self.width as int, i as int)) + seq![
                    Cmd::Text(repeat_char(' ', self.width as int)),
                    Cmd::LineFeed,
                ]);
                assert((seq![Cmd::Restore, Cmd::Up(self.height as int)] + clear_row_cmds(
                    self.width as int,
                    i as int,
                )) + seq![Cmd::Text(repeat_char(' ', self.width as int)), Cmd::LineFeed] =~= seq![
                    Cmd::Restore,
                    Cmd::Up(self.height as int),
                ] + clear_row_cmds(self.width as int, i + 1));
            }
            i += 1;
        }
        cmds
    }

    /// Place a character at a location on the plot area, clamped to the clip
    /// rectangle. A line-break character is passed through like any other:
    /// the in-memory surface stores it as a cell, a live terminal moves the
    /// cursor instead.
    pub fn put(&self, character: char, point: &PVec2) -> (r: Vec<Command>)
        requires
            self.wf(),
        ensures
            cmd_views(r@) == put_cmds(*self, character, *point),
    {
        let a = self.clamp_to_plot(point);
        let mut cmds: Vec<Command> = Vec::new();
        cmds.push(Command::Restore);
        cmds.push(Command::Up(self.height - a.y));
        cmds.push(Command::Right(a.x));
        let mut t: Vec<char> = Vec::new();
        t.push(character);
        cmds.push(Command::Text(t));
        assert(cmd_views(cmds@) =~= put_cmds(*self, character, *point));
        cmds
    }

    /// Print a string on the plot area, one row per line, each cut to the
    /// columns left of the start. Whitespace overwrites existing content;
    /// use [`Plot::put_str_transparent`] to leave it untouched.
    pub fn put_str(&self, content: &str, start: &PVec2) -> (r: Vec<Command>)
        requires
            self.wf(),
        ensures
            cmd_views(r@) == put_str_cmds(*self, content@, *start),
    {
        let cs = chars_of(content);
        self.put_chars(&cs, start)
    }

    /// [`Plot::put_str`] over a character vector.
    pub fn put_chars(&self, content: &Vec<char>, start: &PVec2) -> (r: Vec<Command>)
        requires
            self.wf(),
        ensures
            cmd_views(r@) == put_str_cmds(*self, content@, *start),
    {
        let a = self.clamp_to_plot(start);
        let avail: u16 = self.width - a.x;
        let mut cmds: Vec<Command> = Vec::new();
        cmds.push(Command::Restore);
        cmds.push(Command::Up(self.height - a.y));
        cmds.push(Command::Right(a.x));
        let ghost prefix = seq![
            Cmd::Restore,
            Cmd::Up(self.height - a.y as int),
            Cmd::Right(a.x as int),
        ];
        let lines = split_lines(content);
        let ghost cl = clipped_lines(content@, self.width as int, a.x as int);
        assert(cl.len() == lines@.len());
        let mut i: usize = 0;
        while i < lines.len()
            invariant
                i <= lines@.len(),
                avail == self.width - a.x,
                cl == clipped_lines(content@, self.width as int, a.x as int),
                cl.len() == lines@.len(),
                lines_view(lines@) == split_lines_spec(content@),
                cmd_views(cmds@) =~= prefix + line_cmds(cl.take(i as int), a.x as int),
            decreases lines@.len() - i,
        {
            let line = &lines[i];
            let to: usize = if line.len() < avail as usize {
                line.len()
            } else {
                avail as usize
            };
            let clipped = copy_range(line, 0, to);
            proof {
                assert(lines_view(lines@)[i as int] == line@);
                assert(cl[i as int] == clip_line(line@, avail as int));
                assert(clipped@ =~= clip_line(line@, avail as int));
                lemma_line_cmds_append(cl.take(i as int), seq![cl[i as int]], a.x as int);
                assert(cl.take(i as int) + seq![cl[i as int]] =~= cl.take(i + 1));
                assert(seq![cl[i as int]].skip(1) =~= Seq::<Seq<char>>::empty());
                assert(line_cmds(Seq::<Seq<char>>::empty(), a.x as int)
                    == Seq::<Cmd>::empty());
                assert(line_cmds(seq![cl[i as int]], a.x as int) =~= seq![
                    Cmd::Text(cl[i as int]),
                    Cmd::LineFeed,
                    Cmd::Right(a.x as int),
                ]);
            }
            let ghost pre = cmds@;
            cmds.push(Command::Text(clipped));
            cmds.push(Command::LineFeed);
            cmds.push(Command::Right(a.x));
            proof {
                lemma_cmd_views_push(pre, Command::Text(clipped));
                lemma_cmd_views_push(pre.push(Command::Text(clipped)), Command::LineFeed);
                lemma_cmd_views_push(
                    pre.push(Command::Text(clipped)).push(Command::LineFeed),
                    Command::Right(a.x),
                );
                assert(line_cmds(cl.take(i + 1), a.x as int) == line_cmds(cl.take(i as int), a.x as int)
                    + seq![Cmd::Text(cl[i as int]), Cmd::LineFeed, Cmd::Right(a.x as int)]);
                assert(cmd_views(cmds@) =~= prefix + line_cmds(cl.take(i + 1), a.x as int));
            }
            i += 1;
        }
        assert(cl.take(cl.len() as int) =~= cl);
        cmds
    }

    /// Run this when you are done with the plot: the commands park the
    /// cursor on the row below the anchor, so the drawing stays visible.
    pub fn finish(&self) -> (r: Vec<Command>)
        ensures
            cmd_views(r@) == seq![Cmd::Restore, Cmd::Down(1)],
    {
        let mut cmds: Vec<Command> = Vec::new();
        cmds.push(Command::Restore);
        cmds.push(Command::Down(1));
        assert(cmd_views(cmds@) =~= seq![Cmd::Restore, Cmd::Down(1)]);
        cmds
    }
}

/// Running a single command is stepping it.
pub proof fn lemma_run_one(s: ScreenView, c: Cmd)
    ensures
        s.run(seq![c]) == s.step(c),
{
    reveal_with_fuel(ScreenView::run, 2);
    assert(seq![c].drop_last() =~= Seq::<Cmd>::empty());
    assert(seq![c].last() == c);
}

/// Writing to a row outside the grid changes nothing.
pub proof fn lemma_place_offgrid(grid: Seq<Seq<char>>, row: int, col: int, t: Seq<char>)
    requires
        row < 0 || row >= grid.len(),
    ensures
        place(grid, row, col, t) == grid,
{
    assert(place(grid, row, col, t) =~~= grid);
}

/// `grid` with the given lines written over consecutive rows downward from
/// row `y`, each starting at column `x`: the image of opaque multi-line
/// placement.
pub open spec fn paint_lines(
    grid: Seq<Seq<char>>,
    lines: Seq<Seq<char>>,
    x: int,
    y: int,
) -> Seq<Seq<char>>
    decreases lines.len(),
{
    if lines.len() == 0 {
        grid
    } else {
        paint_lines(place(grid, y, x, lines[0]), lines.skip(1), x, y + 1)
    }
}

pub proof fn lemma_paint_lines_offgrid(grid: Seq<Seq<char>>, lines: Seq<Seq<char>>, x: int, y: int)
    requires
        y >= grid.len(),
    ensures
        paint_lines(grid, lines, x, y) == grid,
    decreases lines.len(),
{
    if lines.len() > 0 {
        lemma_place_offgrid(grid, y, x, lines[0]);
        lemma_paint_lines_offgrid(grid, lines.skip(1), x, y + 1);
    }
}

/// The effect of [`line_cmds`] on a screen whose cursor column is already
/// the start column `x`: the lines are painted downward from the cursor row,
/// and the cursor ends one row below the last line, back at column `x`.
pub proof fn lemma_line_cmds_effect(s: ScreenView, lines: Seq<Seq<char>>, x: int)
    requires
        s.wf(),
        0 <= x <= s.width,
        s.col == x,
    ensures
        ({
            let s2 = s.run(line_cmds(lines, x));
            &&& s2.grid == paint_lines(s.grid, lines, x, s.row)
            &&& s2.row == (if s.row + lines.len() > s.height + 1 {
                s.height + 1
            } else {
                s.row + lines.len()
            })
            &&& s2.col == x
            &&& s2.width == s.width
            &&& s2.height == s.height
            &&& s2.wf()
        }),
    decreases lines.len(),
{
    if lines.len() == 0 {
    } else {
        let head = seq![Cmd::Text(lines[0]), Cmd::LineFeed, Cmd::Right(x)];
        let rest = line_cmds(lines.skip(1), x);
        assert(line_cmds(lines, x) == head + rest);
        lemma_run_append(s, head, rest);
        let st = s.step(Cmd::Text(lines[0]));
        let sl = st.step(Cmd::LineFeed);
        let sr = sl.step(Cmd::Right(x));
        assert(s.run(head) == sr) by {
            reveal_with_fuel(ScreenView::run, 4);
            assert(head.drop_last() =~= seq![Cmd::Text(lines[0]), Cmd::LineFeed]);
            assert(head.drop_last().drop_last() =~= seq![Cmd::Text(lines[0])]);
            assert(head.drop_last().drop_last().drop_last() =~= Seq::<Cmd>::empty());
        }
        lemma_step_wf(s, Cmd::Text(lines[0]));
        lemma_step_wf(st, Cmd::LineFeed);
        lemma_step_wf(sl, Cmd::Right(x));
        lemma_line_cmds_effect(sr, lines.skip(1), x);
        if s.row == s.height + 1 {
            lemma_place_offgrid(s.grid, s.row, x, lines[0]);
            lemma_paint_lines_offgrid(st.grid, lines.skip(1), x, sr.row);
            lemma_paint_lines_offgrid(st.grid, lines.skip(1), x, s.row + 1);
        }
    }
}

/// The effect of [`put_cmds`]: one character lands at the clamped point,
/// and the cursor stands just right of it.
pub proof fn lemma_put_effect(s: ScreenView, plot: Plot, c: char, point: PVec2)
    requires
        s.wf(),
        plot.wf(),
        s.width == plot.width,
        s.height == plot.height,
    ensures
        ({
            let a = plot.clamp_to_plot_spec(point);
            s.run(put_cmds(plot, c, point)) == ScreenView {
                grid: place(s.grid, a.y as int, a.x as int, seq![c]),
                row: a.y as int,
                col: a.x + 1,
                ..s
            }
        }),
{
    let a = plot.clamp_to_plot_spec(point);
    let prefix = seq![
        Cmd::Restore,
        Cmd::Up(plot.height - a.y),
        Cmd::Right(a.x as int),
    ];
    assert(put_cmds(plot, c, point) =~= prefix + seq![Cmd::Text(seq![c])]);
    lemma_run_append(s, prefix, seq![Cmd::Text(seq![c])]);
    let s1 = s.run(prefix);
    assert(s1 == s.step(Cmd::Restore).step(Cmd::Up(plot.height - a.y)).step(
        Cmd::Right(a.x as int),
    )) by {
        reveal_with_fuel(ScreenView::run, 4);
        assert(prefix.drop_last() =~= seq![Cmd::Restore, Cmd::Up(plot.height - a.y)]);
        assert(prefix.drop_last().drop_last() =~= seq![Cmd::Restore]);
        assert(prefix.drop_last().drop_last().drop_last() =~= Seq::<Cmd>::empty());
    }
    lemma_run_one(s1, Cmd::Text(seq![c]));
}

/// The effect of [`put_str_cmds`]: the clipped lines are painted downward
/// from the clamped start, and the cursor ends one row below the last line
/// at the start column.
pub proof fn lemma_put_str_effect(s: ScreenView, plot: Plot, content: Seq<char>, start: PVec2)
    requires
        s.wf(),
        plot.wf(),
        s.width == plot.width,
        s.height == plot.height,
    ensures
        ({
            let a = plot.clamp_to_plot_spec(start);
            let lines = clipped_lines(content, plot.width as int, a.x as int);
            let s2 = s.run(put_str_cmds(plot, content, start));
            &&& s2.grid == paint_lines(s.grid, lines, a.x as int, a.y as int)
            &&& s2.row == (if a.y + lines.len() > s.height + 1 {
                s.height + 1
            } else {
                a.y + lines.len()
            })
            &&& s2.col == a.x
            &&& s2.width == s.width
            &&& s2.height == s.height
            &&& s2.wf()
        }),
{
    let a = plot.clamp_to_plot_spec(start);
    let lines = clipped_lines(content, plot.width as int, a.x as int);
    let prefix = seq![
        Cmd::Restore,
        Cmd::Up(plot.height - a.y),
        Cmd::Right(a.x as int),
    ];
    assert(put_str_cmds(plot, content, start) == prefix + line_cmds(lines, a.x as int));
    lemma_run_append(s, prefix, line_cmds(lines, a.x as int));
    let s1 = s.run(prefix);
    assert(s1 == s.step(Cmd::Restore).step(Cmd::Up(plot.height - a.y)).step(
        Cmd::Right(a.x as int),
    )) by {
        reveal_with_fuel(ScreenView::run, 4);
        assert(prefix.drop_last() =~= seq![Cmd::Restore, Cmd::Up(plot.height - a.y)]);
        assert(prefix.drop_last().drop_last() =~= seq![Cmd::Restore]);
        assert(prefix.drop_last().drop_last().drop_last() =~= Seq::<Cmd>::empty());
    }
    assert(s1.row == a.y && s1.col == a.x && s1.grid == s.grid);
    lemma_line_cmds_effect(s1, lines, a.x as int);
}

/// `line` with the non-whitespace characters of `t` written over it from
/// column `col` on; cells under whitespace keep what they held.
pub open spec fn overlay_transparent(line: Seq<char>, col: int, t: Seq<char>) -> Seq<char> {
    line.map(
        |i: int, ch: char|
            if col <= i < col + t.len() && !is_blank_spec(t[i - col]) {
                t[i - col]
            } else {
                ch
            },
    )
}

/// `grid` with `t` written transparently over row `row` from column `col`.
pub open spec fn place_transparent(
    grid: Seq<Seq<char>>,
    row: int,
    col: int,
    t: Seq<char>,
) -> Seq<Seq<char>> {
    grid.map(
        |r: int, line: Seq<char>|
            if r == row {
                overlay_transparent(line, col, t)
            } else {
                line
            },
    )
}

pub proof fn lemma_place_transparent_offgrid(
    grid: Seq<Seq<char>>,
    row: int,
    col: int,
    t: Seq<char>,
)
    requires
        row < 0 || row >= grid.len(),
    ensures
        place_transparent(grid, row, col, t) == grid,
{
    assert(place_transparent(grid, row, col, t) =~~= grid);
}

/// The effect of [`transparent_cmds`] on a screen: the line lands
/// transparently at the cursor, which stays on its row.
pub proof fn lemma_transparent_cmds_effect(s: ScreenView, t: Seq<char>)
    requires
        s.wf(),
    ensures
        ({
            let s2 = s.run(transparent_cmds(t));
            &&& s2.grid == place_transparent(s.grid, s.row, s.col, t)
            &&& s2.row == s.row
            &&& s2.width == s.width
            &&& s2.height == s.height
            &&& s2.wf()
        }),
    decreases t.len(),
{
    lemma_blank_break_at(t);
    let i = blank_break_at(t);
    if t.len() == 0 {
        assert(place_transparent(s.grid, s.row, s.col, t) =~~= s.grid);
    } else if i == t.len() {
        lemma_run_one(s, Cmd::Text(t));
        lemma_step_wf(s, Cmd::Text(t));
        assert(place(s.grid, s.row, s.col, t) =~~= place_transparent(s.grid, s.row, s.col, t))
            by {
            assert(forall|k: int| 0 <= k < t.len() ==> !is_blank_spec(#[trigger] t[k]));
        }
    } else {
        lemma_nonblank_break_at(t.skip(i));
        let j = nonblank_break_at(t.skip(i));
        assert(forall|k: int| 0 <= k < j ==> t.skip(i)[k] == t[i + k]);
        if i + j == t.len() {
            lemma_run_one(s, Cmd::Text(t.take(i)));
            lemma_step_wf(s, Cmd::Text(t.take(i)));
            assert(place(s.grid, s.row, s.col, t.take(i)) =~~= place_transparent(
                s.grid,
                s.row,
                s.col,
                t,
            )) by {
                assert(forall|k: int| 0 <= k < i ==> !is_blank_spec(#[trigger] t[k]));
                assert forall|k: int| i <= k < t.len() implies is_blank_spec(
                    #[trigger] t[k],
                ) by {
                    assert(t.skip(i)[k - i] == t[k]);
                    assert(is_blank_spec(t.skip(i)[k - i]));
                }
                assert(forall|k: int| 0 <= k < i ==> #[trigger] t.take(i)[k] == t[k]);
            }
        } else {
            let head = seq![Cmd::Text(t.take(i)), Cmd::Right(j)];
            let rest = transparent_cmds(t.skip(i + j));
            assert(transparent_cmds(t) == head + rest);
            lemma_run_append(s, head, rest);
            let st = s.step(Cmd::Text(t.take(i)));
            let sr = st.step(Cmd::Right(j));
            assert(s.run(head) == sr) by {
                reveal_with_fuel(ScreenView::run, 3);
                assert(head.drop_last() =~= seq![Cmd::Text(t.take(i))]);
                assert(head.drop_last().drop_last() =~= Seq::<Cmd>::empty());
            }
            lemma_step_wf(s, Cmd::Text(t.take(i)));
            lemma_step_wf(st, Cmd::Right(j));
            lemma_transparent_cmds_effect(sr, t.skip(i + j));
            let s2 = sr.run(rest);
            assert(s2.grid == place_transparent(st.grid, s.row, sr.col, t.skip(i + j)));
            assert(s2.grid =~~= place_transparent(s.grid, s.row, s.col, t)) by {
                assert(forall|k: int| 0 <= k < i ==> #[trigger] t.take(i)[k] == t[k]);
                assert(forall|k: int| 0 <= k < i ==> !is_blank_spec(#[trigger] t[k]));
                assert forall|k: int| i <= k < i + j implies is_blank_spec(#[trigger] t[k]) by {
                    assert(t.skip(i)[k - i] == t[k]);
                    assert(is_blank_spec(t.skip(i)[k - i]));
                }
                assert(forall|k: int|
                    0 <= k < t.len() - i - j ==> #[trigger] t.skip(i + j)[k] == t[i + j + k]);
                assert(st.col == (if s.col + i > s.width + 1 {
                    s.width + 1
                } else {
                    s.col + i
                }));
                assert(sr.col == (if s.col + i + j > s.width + 1 {
                    s.width + 1
                } else {
                    s.col + i + j
                }));
            }
        }
    }
}

/// `grid` with the given lines written transparently over consecutive rows
/// downward from row `y`, each starting at column `x`.
pub open spec fn paint_tlines(
    grid: Seq<Seq<char>>,
    lines: Seq<Seq<char>>,
    x: int,
    y: int,
) -> Seq<Seq<char>>
    decreases lines.len(),
{
    if lines.len() == 0 {
        grid
    } else {
        paint_tlines(place_transparent(grid, y, x, lines[0]), lines.skip(1), x, y + 1)
    }
}

pub proof fn lemma_paint_tlines_offgrid(
    grid: Seq<Seq<char>>,
    lines: Seq<Seq<char>>,
    x: int,
    y: int,
)
    requires
        y >= grid.len(),
    ensures
        paint_tlines(grid, lines, x, y) == grid,
    decreases lines.len(),
{
    if lines.len() > 0 {
        lemma_place_transparent_offgrid(grid, y, x, lines[0]);
        lemma_paint_tlines_offgrid(grid, lines.skip(1), x, y + 1);
    }
}

/// The effect of [`tline_cmds`], as [`lemma_line_cmds_effect`] but
/// transparent.
pub proof fn lemma_tline_cmds_effect(s: ScreenView, lines: Seq<Seq<char>>, x: int)
    requires
        s.wf(),
        0 <= x <= s.width,
        s.col == x,
    ensures
        ({
            let s2 = s.run(tline_cmds(lines, x));
            &&& s2.grid == paint_tlines(s.grid, lines, x, s.row)
            &&& s2.row == (if s.row + lines.len() > s.height + 1 {
                s.height + 1
            } else {
                s.row + lines.len()
            })
            &&& s2.col == x
            &&& s2.width == s.width
            &&& s2.height == s.height
            &&& s2.wf()
        }),
    decreases lines.len(),
{
    if lines.len() == 0 {
    } else {
        let head = transparent_cmds(lines[0]);
        let mid = seq![Cmd::LineFeed, Cmd::Right(x)];
        let rest = tline_cmds(lines.skip(1), x);
        assert(tline_cmds(lines, x) == head + mid + rest);
        assert(head + mid + rest =~= (head + mid) + rest);
        lemma_run_append(s, head + mid, rest);
        lemma_run_append(s, head, mid);
        lemma_transparent_cmds_effect(s, lines[0]);
        let st = s.run(head);
        let sl = st.step(Cmd::LineFeed);
        let sr = sl.step(Cmd::Right(x));
        assert(st.run(mid) == sr) by {
            reveal_with_fuel(ScreenView::run, 3);
            assert(mid.drop_last() =~= seq![Cmd::LineFeed]);
            assert(mid.drop_last().drop_last() =~= Seq::<Cmd>::empty());
        }
        lemma_step_wf(st, Cmd::LineFeed);
        lemma_step_wf(sl, Cmd::Right(x));
        lemma_tline_cmds_effect(sr, lines.skip(1), x);
        if s.row == s.height + 1 {
            lemma_place_transparent_offgrid(s.grid, s.row, x, lines[0]);
            lemma_paint_tlines_offgrid(st.grid, lines.skip(1), x, sr.row);
            lemma_paint_tlines_offgrid(st.grid, lines.skip(1), x, s.row + 1);
        }
    }
}

/// The effect of [`put_str_transparent_cmds`], as [`lemma_put_str_effect`]
/// but transparent.
pub proof fn lemma_put_str_transparent_effect(
    s: ScreenView,
    plot: Plot,
    content: Seq<char>,
    start: PVec2,
)
    requires
        s.wf(),
        plot.wf(),
        s.width == plot.width,
        s.height == plot.height,
    ensures
        ({
            let a = plot.clamp_to_plot_spec(start);
            let lines = clipped_lines(content, plot.width as int, a.x as int);
            let s2 = s.run(put_str_transparent_cmds(plot, content, start));
            &&& s2.grid == paint_tlines(s.grid, lines, a.x as int, a.y as int)
            &&& s2.row == (if a.y + lines.len() > s.height + 1 {
                s.height + 1
            } else {
                a.y + lines.len()
            })
            &&& s2.col == a.x
            &&& s2.width == s.width
            &&& s2.height == s.height
            &&& s2.wf()
        }),
{
    let a = plot.clamp_to_plot_spec(start);
    let lines = clipped_lines(content, plot.width as int, a.x as int);
    let prefix = seq![
        Cmd::Restore,
        Cmd::Up(plot.height - a.y),
        Cmd::Right(a.x as int),
    ];
    assert(put_str_transparent_cmds(plot, content, start) == prefix + tline_cmds(
        lines,
        a.x as int,
    ));
    lemma_run_append(s, prefix, tline_cmds(lines, a.x as int));
    let s1 = s.run(prefix);
    assert(s1 == s.step(Cmd::Restore).step(Cmd::Up(plot.height - a.y)).step(
        Cmd::Right(a.x as int),
    )) by {
        reveal_with_fuel(ScreenView::run, 4);
        assert(prefix.drop_last() =~= seq![Cmd::Restore, Cmd::Up(plot.height - a.y)]);
        assert(prefix.drop_last().drop_last() =~= seq![Cmd::Restore]);
        assert(prefix.drop_last().drop_last().drop_last() =~= Seq::<Cmd>::empty());
    }
    assert(s1.row == a.y && s1.col == a.x && s1.grid == s.grid);
    lemma_tline_cmds_effect(s1, lines, a.x as int);
}

/// Law: on text without any whitespace, transparent placement leaves the
/// screen exactly as opaque placement does — same grid, same cursor — for
/// every screen, canvas and start point.
pub proof fn lemma_transparent_matches_put_str(
    s: ScreenView,
    plot: Plot,
    content: Seq<char>,
    start: PVec2,
)
    requires
        s.wf(),
        plot.wf(),
        s.width == plot.width,
        s.height == plot.height,
        forall|k: int| 0 <= k < content.len() ==> !is_blank_spec(#[trigger] content[k]),
    ensures
        s.run(put_str_transparent_cmds(plot, content, start)) == s.run(
            put_str_cmds(plot, content, start),
        ),
{
    let a = plot.clamp_to_plot_spec(start);
    let avail = plot.width - a.x as int;
    lemma_line_break_at(content);
    assert(line_break_at(content) == content.len()) by {
        if line_break_at(content) < content.len() {
            assert(content[line_break_at(content)] == '\n');
            assert(is_blank_spec('\n'));
        }
    }
    let lines = clipped_lines(content, plot.width as int, a.x as int);
    assert(split_lines_spec(content) == seq![content]);
    let l = clip_line(content, avail);
    assert(lines =~= seq![l]);
    assert(forall|k: int| 0 <= k < l.len() ==> !is_blank_spec(#[trigger] l[k]));
    lemma_put_str_effect(s, plot, content, start);
    lemma_put_str_transparent_effect(s, plot, content, start);
    let y = a.y as int;
    let x = a.x as int;
    assert(seq![l].skip(1) =~= Seq::<Seq<char>>::empty());
    assert(paint_lines(s.grid, lines, x, y) == place(s.grid, y, x, l)) by {
        reveal_with_fuel(paint_lines, 3);
    }
    assert(paint_tlines(s.grid, lines, x, y) == place_transparent(s.grid, y, x, l)) by {
        reveal_with_fuel(paint_tlines, 3);
    }
    assert(place(s.grid, y, x, l) =~~= place_transparent(s.grid, y, x, l));
}

/// Law: transparent placement of text that is nothing but space characters
/// leaves every cell of the screen unchanged, whatever it held before.
pub proof fn lemma_transparent_blanks_preserve(
    s: ScreenView,
    plot: Plot,
    content: Seq<char>,
    start: PVec2,
)
    requires
        s.wf(),
        plot.wf(),
        s.width == plot.width,
        s.height == plot.height,
        forall|k: int| 0 <= k < content.len() ==> #[trigger] content[k] == ' ',
    ensures
        s.run(put_str_transparent_cmds(plot, content, start)).grid == s.grid,
{
    let a = plot.clamp_to_plot_spec(start);
    let avail = plot.width - a.x as int;
    lemma_line_break_at(content);
    assert(line_break_at(content) == content.len()) by {
        if line_break_at(content) < content.len() {
            assert(content[line_break_at(content)] == '\n');
        }
    }
    let lines = clipped_lines(content, plot.width as int, a.x as int);
    assert(split_lines_spec(content) == seq![content]);
    let l = clip_line(content, avail);
    assert(lines =~= seq![l]);
    assert(forall|k: int| 0 <= k < l.len() ==> #[trigger] l[k] == ' ');
    lemma_put_str_transparent_effect(s, plot, content, start);
    let y = a.y as int;
    let x = a.x as int;
    assert(seq![l].skip(1) =~= Seq::<Seq<char>>::empty());
    assert(paint_tlines(s.grid, lines, x, y) == place_transparent(s.grid, y, x, l)) by {
        reveal_with_fuel(paint_tlines, 3);
    }
    assert(place_transparent(s.grid, y, x, l) =~~= s.grid) by {
        assert(forall|k: int| 0 <= k < l.len() ==> is_blank_spec(#[trigger] l[k]));
    }
}

/// The effect of one blank row of [`clear_row_cmds`] after another: rows are
/// blanked downward from the cursor row across the first `w` columns.
proof fn lemma_clear_rows_effect(s: ScreenView, w: int, k: int)
    requires
        s.wf(),
        0 <= w <= s.width,
        0 <= k,
        s.col == 0,
    ensures
        ({
            let s2 = s.run(clear_row_cmds(w, k));
            &&& s2.grid == Seq::new(
                s.grid.len(),
                |r: int|
                    if s.row <= r < s.row + k {
                        overlay(s.grid[r], 0, repeat_char(' ', w))
                    } else {
                        s.grid[r]
                    },
            )
            &&& s2.row == (if s.row + k > s.height + 1 {
                s.height + 1
            } else {
                s.row + k
            })
            &&& s2.col == 0
            &&& s2.width == s.width
            &&& s2.height == s.height
            &&& s2.wf()
        }),
    decreases k,
{
    if k == 0 {
        assert(s.run(clear_row_cmds(w, 0)) == s);
        assert(Seq::new(
            s.grid.len(),
            |r: int|
                if s.row <= r < s.row {
                    overlay(s.grid[r], 0, repeat_char(' ', w))
                } else {
                    s.grid[r]
                },
        ) =~~= s.grid);
    } else {
        lemma_clear_rows_effect(s, w, k - 1);
        let s1 = s.run(clear_row_cmds(w, k - 1));
        let tail = seq![Cmd::Text(repeat_char(' ', w)), Cmd::LineFeed];
        lemma_run_append(s, clear_row_cmds(w, k - 1), tail);
        let st = s1.step(Cmd::Text(repeat_char(' ', w)));
        let sl = st.step(Cmd::LineFeed);
        assert(s1.run(tail) == sl) by {
            reveal_with_fuel(ScreenView::run, 3);
            assert(tail.drop_last() =~= seq![Cmd::Text(repeat_char(' ', w))]);
            assert(tail.drop_last().drop_last() =~= Seq::<Cmd>::empty());
        }
        lemma_step_wf(s1, Cmd::Text(repeat_char(' ', w)));
        lemma_step_wf(st, Cmd::LineFeed);
        if s.row + k - 1 > s.height {
            lemma_place_offgrid(s1.grid, s1.row, 0, repeat_char(' ', w));
        }
        assert(sl.grid =~~= Seq::new(
            s.grid.len(),
            |r: int|
                if s.row <= r < s.row + k {
                    overlay(s.grid[r], 0, repeat_char(' ', w))
                } else {
                    s.grid[r]
                },
        ));
    }
}

/// The effect of [`Plot::clear`]: every cell of the `width x height` extent
/// is blanked, whatever the clip rectangle says; the extra rightmost column
/// and bottom row of the grid keep their content, and the cursor parks at
/// the anchor.
pub proof fn lemma_clear_effect(s: ScreenView, plot: Plot)
    requires
        s.wf(),
        plot.wf(),
        s.width == plot.width,
        s.height == plot.height,
    ensures
        ({
            let s2 = s.run(
                seq![Cmd::Restore, Cmd::Up(plot.height as int)] + clear_row_cmds(
                    plot.width as int,
                    plot.height as int,
                ),
            );
            &&& s2.grid == Seq::new(
                s.grid.len(),
                |r: int|
                    Seq::new(
                        s.grid[r].len(),
                        |cx: int|
                            if r < plot.height && cx < plot.width {
                                ' '
                            } else {
                                s.grid[r][cx]
                            },
                    ),
            )
            &&& s2.row == s.height
            &&& s2.col == 0
            &&& s2.width == s.width
            &&& s2.height == s.height
            &&& s2.wf()
        }),
{
    let prefix = seq![Cmd::Restore, Cmd::Up(plot.height as int)];
    let rows = clear_row_cmds(plot.width as int, plot.height as int);
    lemma_run_append(s, prefix, rows);
    let s1 = s.run(prefix);
    assert(s1 == s.step(Cmd::Restore).step(Cmd::Up(plot.height as int))) by {
        reveal_with_fuel(ScreenView::run, 3);
        assert(prefix.drop_last() =~= seq![Cmd::Restore]);
        assert(prefix.drop_last().drop_last() =~= Seq::<Cmd>::empty());
    }
    assert(s1.row == 0 && s1.col == 0 && s1.grid == s.grid);
    lemma_clear_rows_effect(s1, plot.width as int, plot.height as int);
    assert(s1.run(rows).grid =~~= Seq::new(
        s.grid.len(),
        |r: int|
            Seq::new(
                s.grid[r].len(),
                |cx: int|
                    if r < plot.height && cx < plot.width {
                        ' '
                    } else {
                        s.grid[r][cx]
                    },
            ),
    ));
}

/// The effect of [`Plot::finish`]: nothing is written, and the cursor parks
/// one row below the anchor.
pub proof fn lemma_finish_effect(s: ScreenView)
    requires
        s.wf(),
    ensures
        s.run(seq![Cmd::Restore, Cmd::Down(1)]) == (ScreenView {
            row: s.height + 1,
            col: 0,
            ..s
        }),
{
    reveal_with_fuel(ScreenView::run, 3);
    assert(seq![Cmd::Restore, Cmd::Down(1)].drop_last() =~= seq![Cmd::Restore]);
    assert(seq![Cmd::Restore, Cmd::Down(1)].drop_last().drop_last() =~= Seq::<Cmd>::empty());
}

/// `n` line feeds: the blank rows that anchor a fresh plot area.
pub open spec fn feed_cmds(n: int) -> Seq<Cmd>
    decreases n,
{
    if n <= 0 {
        Seq::empty()
    } else {
        feed_cmds(n - 1) + seq![Cmd::LineFeed]
    }
}

pub proof fn lemma_feed_cmds_len(n: int)
    ensures
        feed_cmds(n).len() == if n >= 0 { n } else { 0 },
    decreases n,
{
    if n > 0 {
        lemma_feed_cmds_len(n - 1);
    }
}

/// Taking the view of a pushed command extends the views by its view.
pub proof fn lemma_cmd_views_push(s: Seq<Command>, c: Command)
    ensures
        cmd_views(s.push(c)) == cmd_views(s).push(c@),
{
    assert(cmd_views(s.push(c)) =~= cmd_views(s).push(c@));
}

/// The views of concatenated command vectors are the concatenated views.
pub proof fn lemma_cmd_views_append(a: Seq<Command>, b: Seq<Command>)
    ensures
        cmd_views(a + b) == cmd_views(a) + cmd_views(b),
{
    assert(cmd_views(a + b) =~= cmd_views(a) + cmd_views(b));
}

/// `h` repetitions of one blank row followed by a line feed: the body of
/// [`Plot::clear`].
pub open spec fn clear_row_cmds(w: int, h: int) -> Seq<Cmd>
    decreases h,
{
    if h <= 0 {
        Seq::empty()
    } else {
        clear_row_cmds(w, h - 1) + seq![Cmd::Text(repeat_char(' ', w)), Cmd::LineFeed]
    }
}

proof fn lemma_clear_row_cmds_snoc(w: int, h: int)
    requires
        h > 0,
    ensures
        clear_row_cmds(w, h) == clear_row_cmds(w, h - 1) + seq![
            Cmd::Text(repeat_char(' ', w)),
            Cmd::LineFeed,
        ],
{
}

} // verus!
