//! Drawable shapes and coordinate transforms: view boxes, points, lines and
//! rectangles.

use vstd::arithmetic::div_mod::{
    lemma_div_is_ordered, lemma_div_multiples_vanish, lemma_fundamental_div_mod,
    lemma_fundamental_div_mod_converse, lemma_mod_pos_bound,
};
use vstd::arithmetic::mul::{lemma_mul_inequality, lemma_mul_upper_bound};
use vstd::math::abs;
use vstd::prelude::*;

use crate::data::{PVec2, Vec2};
use crate::plot::{
    clamp_spec, clipped_lines, lemma_put_str_effect, lemma_put_str_transparent_effect,
    overlay_transparent, paint_lines, paint_tlines, place_transparent, put_cmds, put_str_cmds,
    put_str_transparent_cmds, Plot,
};
use crate::screen::{cmd_views, lemma_run_append, overlay, place, Cmd, Command, ScreenView};
use crate::text::{
    clip_line, is_blank_spec, lemma_line_break_at, lemma_split_prepend_line, line_break_at,
    repeat_char, split_lines_spec,
};

verus! {

/// The largest magnitude a scaled view box's domain bounds may have; it
/// keeps the exact scaling arithmetic within machine range.
pub const DOMAIN_BOUND: i64 = 0x8000_0000;

/// A view box constrains shapes to a sub-rectangle of the plot area by a
/// pure translation.
pub struct ViewBox {
    pub plot: Plot,
    pub position: PVec2,
    pub size: PVec2,
}

impl ViewBox {
    /// Relative coordinates translated to absolute coordinates on the parent
    /// plot: the translated point, constrained to the box's own extent.
    pub open spec fn translate_spec(self, point: PVec2) -> PVec2 {
        PVec2 {
            x: clamp_spec(point.x + self.position.x, 0, self.size.x as int) as u16,
            y: clamp_spec(point.y + self.position.y, 0, self.size.y as int) as u16,
        }
    }

    /// Constrain a number within a range; values outside come back as the
    /// nearer end.
    pub fn clamp(n: u16, lower: u16, upper: u16) -> (r: u16)
        ensures
            r == clamp_spec(n as int, lower as int, upper as int),
    {
        Plot::clamp(n, lower, upper)
    }

    /// Constrain a point within a minimum and maximum XY range, each
    /// dimension separately.
    pub fn clamp_point(point: PVec2, x_min: u16, x_max: u16, y_min: u16, y_max: u16) -> (r: PVec2)
        ensures
            r.x == clamp_spec(point.x as int, x_min as int, x_max as int),
            r.y == clamp_spec(point.y as int, y_min as int, y_max as int),
    {
        Plot::clamp_point(&point, x_min, x_max, y_min, y_max)
    }

    /// Constrain a point within this box's own extent.
    pub fn clamp_to_plot(&self, point: PVec2) -> (r: PVec2)
        ensures
            r.x == clamp_spec(point.x as int, 0, self.size.x as int),
            r.y == clamp_spec(point.y as int, 0, self.size.y as int),
    {
        Self::clamp_point(point, 0, self.size.x, 0, self.size.y)
    }

    /// Translate relative coordinates to absolute coordinates on the parent
    /// plot.
    pub fn translate_to_plot(&self, point: PVec2) -> (r: PVec2)
        requires
            point.x + self.position.x <= u16::MAX,
            point.y + self.position.y <= u16::MAX,
        ensures
            r == self.translate_spec(point),
    {
        self.clamp_to_plot(point.plus(&self.position))
    }
}

/// `p` scaled from the domain `[lo, hi]` onto the `size + 1` grid cells that
/// start at `origin`: the clamped, min-max-normalized value, scaled and
/// rounded down. A degenerate domain (`lo == hi`) falls back to the midpoint
/// of the target range.
pub open spec fn scale_axis(p: int, lo: int, hi: int, origin: int, size: int) -> int {
    if lo < hi {
        origin + (clamp_spec(p, lo, hi) - lo) * size / (hi - lo)
    } else {
        origin + size / 2
    }
}

/// A view box that also converts from an arbitrary domain scale to plot
/// coordinates. Domain bounds are integers in the caller's domain units (a
/// caller with fractional data picks a fixed-point scale for its units).
pub struct ScaledViewBox {
    pub plot: Plot,
    pub position: PVec2,
    pub size: PVec2,
    pub x_min: i64,
    pub x_max: i64,
    pub y_min: i64,
    pub y_max: i64,
}

impl ScaledViewBox {
    /// Domain bounds are ordered and within range, and the box's grid extent
    /// stays within grid coordinates.
    pub open spec fn wf(self) -> bool {
        &&& -DOMAIN_BOUND <= self.x_min <= self.x_max <= DOMAIN_BOUND
        &&& -DOMAIN_BOUND <= self.y_min <= self.y_max <= DOMAIN_BOUND
        &&& self.position.x + self.size.x <= u16::MAX
        &&& self.position.y + self.size.y <= u16::MAX
    }

    /// Domain coordinates translated to plot coordinates, each axis scaled
    /// independently.
    pub open spec fn translate_spec(self, point: Vec2) -> PVec2 {
        PVec2 {
            x: scale_axis(
                point.x as int,
                self.x_min as int,
                self.x_max as int,
                self.position.x as int,
                self.size.x as int,
            ) as u16,
            y: scale_axis(
                point.y as int,
                self.y_min as int,
                self.y_max as int,
                self.position.y as int,
                self.size.y as int,
            ) as u16,
        }
    }

    /// Translate domain coordinates (bounded by the box's own domain) into
    /// plot area coordinates.
    pub fn translate_to_plot(&self, point: Vec2) -> (r: PVec2)
        requires
            self.wf(),
        ensures
            r == self.translate_spec(point),
    {
        PVec2 {
            x: scale_axis_exec(point.x, self.x_min, self.x_max, self.position.x, self.size.x),
            y: scale_axis_exec(point.y, self.y_min, self.y_max, self.position.y, self.size.y),
        }
    }
}

/// One axis of [`ScaledViewBox::translate_to_plot`].
fn scale_axis_exec(p: i64, lo: i64, hi: i64, origin: u16, size: u16) -> (r: u16)
    requires
        -DOMAIN_BOUND <= lo <= hi <= DOMAIN_BOUND,
        origin + size <= u16::MAX,
    ensures
        r == scale_axis(p as int, lo as int, hi as int, origin as int, size as int),
{
    if lo < hi {
        let c: i64 = if p < lo {
            lo
        } else if p > hi {
            hi
        } else {
            p
        };
        let cl: u64 = (c - lo) as u64;
        proof {
            lemma_mul_upper_bound(cl as int, 0x1_0000_0000, size as int, 0xFFFF);
        }
        let num: u64 = cl * (size as u64);
        let den: u64 = (hi - lo) as u64;
        let q: u64 = num / den;
        proof {
            lemma_mul_inequality(c - lo, hi - lo, size as int);
            lemma_div_is_ordered(num as int, (hi - lo) * (size as int), den as int);
            lemma_div_multiples_vanish(size as int, (hi - lo) as int);
        }
        origin + (q as u16)
    } else {
        origin + size / 2
    }
}

/// Law: with a proper (non-degenerate) domain, the exact domain minimum maps
/// to the box's origin and the exact domain maximum to origin + size.
pub proof fn lemma_scaled_viewbox_endpoints(svb: ScaledViewBox)
    requires
        svb.wf(),
        svb.x_min < svb.x_max,
        svb.y_min < svb.y_max,
    ensures
        svb.translate_spec(Vec2 { x: svb.x_min, y: svb.y_min }) == svb.position,
        svb.translate_spec(Vec2 { x: svb.x_max, y: svb.y_max }) == (PVec2 {
            x: (svb.position.x + svb.size.x) as u16,
            y: (svb.position.y + svb.size.y) as u16,
        }),
{
    lemma_scale_axis_endpoints(
        svb.x_min as int,
        svb.x_max as int,
        svb.position.x as int,
        svb.size.x as int,
    );
    lemma_scale_axis_endpoints(
        svb.y_min as int,
        svb.y_max as int,
        svb.position.y as int,
        svb.size.y as int,
    );
}

proof fn lemma_scale_axis_endpoints(lo: int, hi: int, origin: int, size: int)
    requires
        lo < hi,
        size >= 0,
    ensures
        scale_axis(lo, lo, hi, origin, size) == origin,
        scale_axis(hi, lo, hi, origin, size) == origin + size,
{
    assert((lo - lo) * size == 0) by (nonlinear_arith);
    lemma_fundamental_div_mod_converse(0, hi - lo, 0, 0);
    lemma_div_multiples_vanish(size, hi - lo);
}

/// A point that can be drawn on a plot area.
pub struct Point {
    pub position: PVec2,
    pub symbol: char,
}

impl Point {
    pub fn new(position: PVec2, symbol: char) -> (r: Point)
        ensures
            r == (Point { position, symbol }),
    {
        Point { position, symbol }
    }

    /// A point given in a scaled view box's domain coordinates, converted to
    /// plot coordinates.
    pub fn in_svb(viewbox: ScaledViewBox, position: Vec2, symbol: char) -> (r: Point)
        requires
            viewbox.wf(),
        ensures
            r == (Point { position: viewbox.translate_spec(position), symbol }),
    {
        Self::new(viewbox.translate_to_plot(position), symbol)
    }

    /// Draw the point in the selected plot area.
    pub fn draw(&self, plot: &Plot) -> (r: Vec<Command>)
        requires
            plot.wf(),
        ensures
            cmd_views(r@) == put_cmds(*plot, self.symbol, self.position),
    {
        plot.put(self.symbol, &self.position)
    }

    /// Draw the point in the selected view box, translated to the box's
    /// origin.
    pub fn draw_vb(&self, viewbox: &ViewBox) -> (r: Vec<Command>)
        requires
            viewbox.plot.wf(),
            self.position.x + viewbox.position.x <= u16::MAX,
            self.position.y + viewbox.position.y <= u16::MAX,
        ensures
            cmd_views(r@) == put_cmds(
                viewbox.plot,
                self.symbol,
                PVec2 {
                    x: (self.position.x + viewbox.position.x) as u16,
                    y: (self.position.y + viewbox.position.y) as u16,
                },
            ),
    {
        Self::new(self.position.plus(&viewbox.position), self.symbol).draw(&viewbox.plot)
    }
}

/// `n` stacked rows of one `c` each: the text a vertical line places.
pub open spec fn vertical_text(c: char, n: int) -> Seq<char>
    decreases n,
{
    if n <= 0 {
        Seq::empty()
    } else {
        vertical_text(c, n - 1) + seq![c, '\n']
    }
}

/// The leftmost column a diagonal's row `r` covers: the floor of the lesser
/// of the ideal line's columns at the row's two edges. The line runs from
/// `x0` on row `1`'s upper edge to `x0 + d` on row `n`'s lower edge.
pub open spec fn seg_lo(x0: int, d: int, n: int, r: int) -> int {
    if d >= 0 {
        x0 + (r - 1) * d / n
    } else {
        x0 + r * d / n
    }
}

/// One past the rightmost column a diagonal's row `r` covers: the ceiling of
/// the greater of the ideal line's columns at the row's two edges.
pub open spec fn seg_hi(x0: int, d: int, n: int, r: int) -> int {
    if d >= 0 {
        x0 + (r * d + n - 1) / n
    } else {
        x0 + ((r - 1) * d + n - 1) / n
    }
}

/// Row `r` of a diagonal without its closing line break: blank padding out
/// to the covered range's absolute start column, then the symbol across the
/// range.
pub open spec fn diag_row_body(x0: int, d: int, n: int, c: char, r: int) -> Seq<char> {
    repeat_char(' ', seg_lo(x0, d, n, r)) + repeat_char(c, seg_hi(x0, d, n, r) - seg_lo(x0, d, n, r))
}

/// Row `r` of a diagonal: its body and a line break.
pub open spec fn diag_row(x0: int, d: int, n: int, c: char, r: int) -> Seq<char> {
    diag_row_body(x0, d, n, c, r) + seq!['\n']
}

/// The first `r` rows of a diagonal, joined.
pub open spec fn diag_text(x0: int, d: int, n: int, c: char, r: int) -> Seq<char>
    decreases r,
{
    if r <= 0 {
        Seq::empty()
    } else {
        diag_text(x0, d, n, c, r - 1) + diag_row(x0, d, n, c, r)
    }
}

/// A line of a single repeated symbol between two grid points, drawn on a
/// plot area. The commands it draws are dispatched on the delta between its
/// endpoints:
/// - both deltas zero: a single point placement;
/// - horizontal: one run of `|dx|` symbols from the lesser column;
/// - vertical: `|dy|` stacked single-symbol rows from the lesser row;
/// - otherwise: a scan-line rasterization along y. Each row's padding runs
///   out to the covered range's absolute start column, so the joined rows
///   are placed at the first column, transparently, and the padding never
///   erases drawn content. The cells drawn depend only on the unordered
///   endpoint pair ([`lemma_line_draw_symmetric`]).
pub struct Line {
    pub start: PVec2,
    pub end: PVec2,
    pub symbol: char,
}

/// The commands [`Line::draw`] emits.
pub open spec fn line_draw_cmds(plot: Plot, l: Line) -> Seq<Cmd> {
    let sx = l.start.x as int;
    let sy = l.start.y as int;
    let ex = l.end.x as int;
    let ey = l.end.y as int;
    if sx == ex && sy == ey {
        put_cmds(plot, l.symbol, l.start)
    } else if sy == ey {
        put_str_cmds(
            plot,
            repeat_char(l.symbol, abs(ex - sx) as int),
            PVec2 { x: (if sx < ex { sx } else { ex }) as u16, y: l.start.y },
        )
    } else if sx == ex {
        put_str_cmds(
            plot,
            vertical_text(l.symbol, abs(ey - sy) as int),
            PVec2 { x: l.start.x, y: (if sy < ey { sy } else { ey }) as u16 },
        )
    } else {
        let n = abs(ey - sy) as int;
        let x0 = if sy <= ey { sx } else { ex };
        let x1 = if sy <= ey { ex } else { sx };
        put_str_transparent_cmds(
            plot,
            diag_text(x0, x1 - x0, n, l.symbol, n),
            PVec2 { x: 0, y: (if sy < ey { sy } else { ey }) as u16 },
        )
    }
}

/// Law: the commands a line draws depend only on the unordered pair of its
/// endpoints; swapping start and end changes nothing.
pub proof fn lemma_line_draw_symmetric(plot: Plot, a: PVec2, b: PVec2, symbol: char)
    ensures
        line_draw_cmds(plot, Line { start: a, end: b, symbol }) == line_draw_cmds(
            plot,
            Line { start: b, end: a, symbol },
        ),
{
}

/// Where a diagonal between the endpoint pair of `l` writes: within its
/// `|dy|` rows downward from the lesser endpoint row, between that row's
/// rational bounds [`seg_lo`] and [`seg_hi`] — the absolute columns spanned
/// by the ideal line across the row.
pub open spec fn diag_covers(l: Line, x: int, y: int) -> bool {
    let sy = l.start.y as int;
    let ey = l.end.y as int;
    let ymin = if sy < ey {
        sy
    } else {
        ey
    };
    let n = abs(ey - sy) as int;
    let x0 = if sy <= ey {
        l.start.x as int
    } else {
        l.end.x as int
    };
    let x1 = if sy <= ey {
        l.end.x as int
    } else {
        l.start.x as int
    };
    &&& ymin <= y < ymin + n
    &&& seg_lo(x0, x1 - x0, n, y - ymin + 1) <= x < seg_hi(x0, x1 - x0, n, y - ymin + 1)
}

/// The rows of a diagonal from row `r0` on, joined.
spec fn diag_tail(x0: int, d: int, n: int, c: char, r0: int) -> Seq<char>
    decreases n + 1 - r0,
{
    if r0 > n {
        Seq::empty()
    } else {
        diag_row(x0, d, n, c, r0) + diag_tail(x0, d, n, c, r0 + 1)
    }
}

proof fn lemma_diag_tail_join(x0: int, d: int, n: int, c: char, r: int)
    requires
        0 <= r <= n,
    ensures
        diag_text(x0, d, n, c, r) + diag_tail(x0, d, n, c, r + 1) == diag_tail(x0, d, n, c, 1),
    decreases r,
{
    if r == 0 {
        assert(diag_text(x0, d, n, c, 0) + diag_tail(x0, d, n, c, 1) =~= diag_tail(
            x0,
            d,
            n,
            c,
            1,
        ));
    } else {
        lemma_diag_tail_join(x0, d, n, c, r - 1);
        assert((diag_text(x0, d, n, c, r - 1) + diag_row(x0, d, n, c, r)) + diag_tail(
            x0,
            d,
            n,
            c,
            r + 1,
        ) =~= diag_text(x0, d, n, c, r - 1) + (diag_row(x0, d, n, c, r) + diag_tail(
            x0,
            d,
            n,
            c,
            r + 1,
        )));
    }
}

/// The lines the diagonal's text from row `r0` on splits into: one body per
/// row, and the empty line after the final break.
spec fn diag_lines(x0: int, d: int, n: int, c: char, r0: int) -> Seq<Seq<char>> {
    Seq::new(
        (n + 2 - r0) as nat,
        |i: int|
            if i < n + 1 - r0 {
                diag_row_body(x0, d, n, c, r0 + i)
            } else {
                Seq::<char>::empty()
            },
    )
}

proof fn lemma_split_diag_tail(x0: int, d: int, n: int, c: char, r0: int)
    requires
        c != '\n',
        1 <= r0 <= n + 1,
    ensures
        split_lines_spec(diag_tail(x0, d, n, c, r0)) == diag_lines(x0, d, n, c, r0),
    decreases n + 1 - r0,
{
    if r0 == n + 1 {
        lemma_line_break_at(diag_tail(x0, d, n, c, r0));
        assert(split_lines_spec(diag_tail(x0, d, n, c, r0)) =~= diag_lines(x0, d, n, c, r0));
    } else {
        let body = diag_row_body(x0, d, n, c, r0);
        assert(forall|k: int| 0 <= k < body.len() ==> body[k] != '\n');
        assert(diag_tail(x0, d, n, c, r0) =~= body + seq!['\n'] + diag_tail(x0, d, n, c, r0 + 1));
        lemma_split_prepend_line(body, diag_tail(x0, d, n, c, r0 + 1));
        lemma_split_diag_tail(x0, d, n, c, r0 + 1);
        assert(seq![body] + diag_lines(x0, d, n, c, r0 + 1) =~= diag_lines(x0, d, n, c, r0));
    }
}

/// Transparent placement of one row body at column 0 writes the symbol on
/// exactly the row's covered range: the padding is whitespace and skipped.
proof fn lemma_overlay_diag_body(line: Seq<char>, x0: int, d: int, n: int, c: char, r: int)
    requires
        !is_blank_spec(c),
        0 <= seg_lo(x0, d, n, r) <= seg_hi(x0, d, n, r),
    ensures
        overlay_transparent(line, 0, diag_row_body(x0, d, n, c, r)) == line.map(
            |i: int, ch: char|
                if seg_lo(x0, d, n, r) <= i < seg_hi(x0, d, n, r) {
                    c
                } else {
                    ch
                },
        ),
{
    let body = diag_row_body(x0, d, n, c, r);
    assert(body.len() == seg_hi(x0, d, n, r));
    assert(forall|k: int| 0 <= k < seg_lo(x0, d, n, r) ==> body[k] == ' ');
    assert(forall|k: int| seg_lo(x0, d, n, r) <= k < seg_hi(x0, d, n, r) ==> body[k] == c);
    assert(is_blank_spec(' '));
    assert(overlay_transparent(line, 0, body) =~= line.map(
        |i: int, ch: char|
            if seg_lo(x0, d, n, r) <= i < seg_hi(x0, d, n, r) {
                c
            } else {
                ch
            },
    ));
}

proof fn lemma_paint_diag_lines(
    grid: Seq<Seq<char>>,
    x0: int,
    d: int,
    n: int,
    c: char,
    r0: int,
    y: int,
)
    requires
        !is_blank_spec(c),
        1 <= r0 <= n + 1,
        forall|rr: int|
            r0 <= rr <= n ==> 0 <= seg_lo(x0, d, n, rr) && #[trigger] seg_lo(x0, d, n, rr)
                <= seg_hi(x0, d, n, rr),
    ensures
        paint_tlines(grid, diag_lines(x0, d, n, c, r0), 0, y) == Seq::new(
            grid.len(),
            |r: int|
                if y <= r < y + (n + 1 - r0) {
                    grid[r].map(
                        |i: int, ch: char|
                            if seg_lo(x0, d, n, r0 + r - y) <= i < seg_hi(x0, d, n, r0 + r - y) {
                                c
                            } else {
                                ch
                            },
                    )
                } else {
                    grid[r]
                },
        ),
    decreases n + 1 - r0,
{
    reveal_with_fuel(paint_tlines, 3);
    if r0 == n + 1 {
        assert(diag_lines(x0, d, n, c, r0)[0] =~= Seq::<char>::empty());
        assert(diag_lines(x0, d, n, c, r0).skip(1) =~= Seq::<Seq<char>>::empty());
        assert(place_transparent(grid, y, 0, diag_lines(x0, d, n, c, r0)[0]) =~~= grid);
        assert(Seq::new(
            grid.len(),
            |r: int|
                if y <= r < y {
                    grid[r].map(
                        |i: int, ch: char|
                            if seg_lo(x0, d, n, r0 + r - y) <= i < seg_hi(x0, d, n, r0 + r - y) {
                                c
                            } else {
                                ch
                            },
                    )
                } else {
                    grid[r]
                },
        ) =~~= grid);
    } else {
        let body = diag_row_body(x0, d, n, c, r0);
        assert(diag_lines(x0, d, n, c, r0)[0] == body);
        assert(diag_lines(x0, d, n, c, r0).skip(1) =~= diag_lines(x0, d, n, c, r0 + 1));
        let g1 = place_transparent(grid, y, 0, body);
        assert(paint_tlines(grid, diag_lines(x0, d, n, c, r0), 0, y) == paint_tlines(
            g1,
            diag_lines(x0, d, n, c, r0 + 1),
            0,
            y + 1,
        ));
        lemma_paint_diag_lines(g1, x0, d, n, c, r0 + 1, y + 1);
        if 0 <= y < grid.len() {
            lemma_overlay_diag_body(grid[y], x0, d, n, c, r0);
        }
        assert(paint_tlines(g1, diag_lines(x0, d, n, c, r0 + 1), 0, y + 1) =~~= Seq::new(
            grid.len(),
            |r: int|
                if y <= r < y + (n + 1 - r0) {
                    grid[r].map(
                        |i: int, ch: char|
                            if seg_lo(x0, d, n, r0 + r - y) <= i < seg_hi(x0, d, n, r0 + r - y) {
                                c
                            } else {
                                ch
                            },
                    )
                } else {
                    grid[r]
                },
        ));
    }
}

/// The effect of a diagonal [`Line::draw`]: the symbol lands on exactly the
/// cells of [`diag_covers`] — each row's run between its rational bounds, at
/// the absolute columns spec'd for the ideal line — and every other cell is
/// unchanged. The clip rectangle must be at its full default (origin at
/// zero, the line's rows inside it, its columns within the width), and the
/// symbol must not be whitespace, which transparent placement would skip.
pub proof fn lemma_diagonal_draw_covers(s: ScreenView, plot: Plot, l: Line)
    requires
        s.wf(),
        plot.wf(),
        s.width == plot.width,
        s.height == plot.height,
        l.start.x != l.end.x,
        l.start.y != l.end.y,
        plot.x_min == 0,
        plot.y_min <= (if l.start.y < l.end.y {
            l.start.y as int
        } else {
            l.end.y as int
        }),
        (if l.start.y < l.end.y {
            l.start.y as int
        } else {
            l.end.y as int
        }) <= plot.y_max,
        (if l.start.x < l.end.x {
            l.end.x as int
        } else {
            l.start.x as int
        }) <= plot.width,
        !is_blank_spec(l.symbol),
    ensures
        s.run(line_draw_cmds(plot, l)).grid == Seq::new(
            s.grid.len(),
            |r: int|
                Seq::new(
                    s.grid[r].len(),
                    |cx: int|
                        if diag_covers(l, cx, r) {
                            l.symbol
                        } else {
                            s.grid[r][cx]
                        },
                ),
        ),
{
    let sx = l.start.x as int;
    let sy = l.start.y as int;
    let ex = l.end.x as int;
    let ey = l.end.y as int;
    let ymin = if sy < ey {
        sy
    } else {
        ey
    };
    let n = abs(ey - sy) as int;
    let x0 = if sy <= ey {
        sx
    } else {
        ex
    };
    let x1 = if sy <= ey {
        ex
    } else {
        sx
    };
    let d = x1 - x0;
    let c = l.symbol;
    let text = diag_text(x0, d, n, c, n);
    let start = PVec2 { x: 0, y: ymin as u16 };
    assert(line_draw_cmds(plot, l) == put_str_transparent_cmds(plot, text, start));
    lemma_put_str_transparent_effect(s, plot, text, start);
    assert(plot.clamp_to_plot_spec(start) == start);
    assert(c != '\n') by {
        assert(is_blank_spec('\n'));
    }
    assert forall|rr: int| 1 <= rr <= n implies 0 <= seg_lo(x0, d, n, rr) && #[trigger] seg_lo(
        x0,
        d,
        n,
        rr,
    ) <= seg_hi(x0, d, n, rr) && seg_hi(x0, d, n, rr) <= plot.width by {
        lemma_seg_bounds_spec(x0, x1, n, rr);
    }
    lemma_diag_tail_join(x0, d, n, c, n);
    assert(diag_tail(x0, d, n, c, n + 1) == Seq::<char>::empty());
    assert(text + Seq::<char>::empty() =~= text);
    assert(text == diag_tail(x0, d, n, c, 1));
    lemma_split_diag_tail(x0, d, n, c, 1);
    let lines = clipped_lines(text, plot.width as int, 0);
    assert(lines =~= diag_lines(x0, d, n, c, 1)) by {
        assert forall|i: int| 0 <= i < diag_lines(x0, d, n, c, 1).len() implies clip_line(
            #[trigger] diag_lines(x0, d, n, c, 1)[i],
            plot.width - 0,
        ) == diag_lines(x0, d, n, c, 1)[i] by {
            if i < n {
                lemma_seg_bounds_spec(x0, x1, n, 1 + i);
                assert(diag_lines(x0, d, n, c, 1)[i].len() == seg_hi(x0, d, n, 1 + i));
            }
        }
    }
    let s2 = s.run(put_str_transparent_cmds(plot, text, start));
    assert(s2.grid == paint_tlines(s.grid, lines, 0, ymin));
    lemma_paint_diag_lines(s.grid, x0, d, n, c, 1, ymin);
    assert(s2.grid =~~= Seq::new(
        s.grid.len(),
        |r: int|
            Seq::new(
                s.grid[r].len(),
                |cx: int|
                    if diag_covers(l, cx, r) {
                        l.symbol
                    } else {
                        s.grid[r][cx]
                    },
            ),
    ));
}

/// The bounds of a diagonal's covered range on each row: non-empty and
/// between the endpoint columns.
proof fn lemma_seg_bounds_spec(x0: int, x1: int, n: int, r: int)
    requires
        0 <= x0,
        0 <= x1,
        x0 != x1,
        1 <= r <= n,
    ensures
        (if x0 < x1 {
            x0
        } else {
            x1
        }) <= seg_lo(x0, x1 - x0, n, r),
        seg_lo(x0, x1 - x0, n, r) <= seg_hi(x0, x1 - x0, n, r),
        seg_hi(x0, x1 - x0, n, r) <= (if x0 < x1 {
            x1
        } else {
            x0
        }),
{
    let d = x1 - x0;
    if x0 < x1 {
        assert(0 * d == 0) by (nonlinear_arith);
        lemma_mul_inequality(0, r - 1, d);
        lemma_fundamental_div_mod_converse(0, n, 0, 0);
        lemma_div_is_ordered(0, (r - 1) * d, n);
        lemma_mul_inequality(r - 1, r, d);
        lemma_div_is_ordered((r - 1) * d, r * d + n - 1, n);
        lemma_mul_inequality(r, n, d);
        lemma_div_is_ordered(r * d + n - 1, n * d + n - 1, n);
        assert(n * d + n - 1 == d * n + (n - 1)) by (nonlinear_arith);
        lemma_fundamental_div_mod_converse(n * d + n - 1, n, d, n - 1);
    } else {
        let dm = x0 - x1;
        assert(r * d == -(r * dm) && (r - 1) * d == -((r - 1) * dm) && 0 * dm == 0)
            by (nonlinear_arith)
            requires
                d == -dm,
        ;
        lemma_mul_inequality(0, r - 1, dm);
        lemma_mul_inequality(0, r, dm);
        lemma_div_neg_num_ceil(r * dm, n);
        lemma_div_neg_num_floor((r - 1) * dm, n);
        lemma_fundamental_div_mod_converse(0, n, 0, 0);
        lemma_div_is_ordered(0, (r - 1) * dm, n);
        lemma_mul_inequality(r, n, dm);
        lemma_div_is_ordered(r * dm + n - 1, n * dm + n - 1, n);
        assert(n * dm + n - 1 == dm * n + (n - 1)) by (nonlinear_arith);
        lemma_fundamental_div_mod_converse(n * dm + n - 1, n, dm, n - 1);
        lemma_mul_inequality(r - 1, r, dm);
        lemma_div_is_ordered((r - 1) * dm, r * dm + n - 1, n);
    }
}

/// Division facts used to pin the diagonal's exact rational bounds.
proof fn lemma_div_neg_num_ceil(m: int, n: int)
    requires
        n > 0,
        m >= 0,
    ensures
        (-m) / n == -((m + n - 1) / n),
{
    lemma_fundamental_div_mod(m, n);
    lemma_mod_pos_bound(m, n);
    let q = m / n;
    let s = m % n;
    if s == 0 {
        assert(m + n - 1 == q * n + (n - 1) && -m == (-q) * n + 0) by (nonlinear_arith)
            requires
                m == n * q + s,
                s == 0,
        ;
        lemma_fundamental_div_mod_converse(m + n - 1, n, q, n - 1);
        lemma_fundamental_div_mod_converse(-m, n, -q, 0);
    } else {
        assert(m + n - 1 == (q + 1) * n + (s - 1) && -m == (-(q + 1)) * n + (n - s))
            by (nonlinear_arith)
            requires
                m == n * q + s,
        ;
        lemma_fundamental_div_mod_converse(m + n - 1, n, q + 1, s - 1);
        lemma_fundamental_div_mod_converse(-m, n, -(q + 1), n - s);
    }
}

proof fn lemma_div_neg_num_floor(m: int, n: int)
    requires
        n > 0,
        m >= 0,
    ensures
        (n - 1 - m) / n == -(m / n),
{
    lemma_fundamental_div_mod(m, n);
    lemma_mod_pos_bound(m, n);
    assert(n - 1 - m == (-(m / n)) * n + (n - 1 - (m % n))) by (nonlinear_arith)
        requires
            m == n * (m / n) + (m % n),
    ;
    lemma_fundamental_div_mod_converse(n - 1 - m, n, -(m / n), n - 1 - (m % n));
}

/// The covered range of a diagonal's row, as executable bounds: row `r`
/// covers columns `lo..hi`, a non-empty range between the endpoint columns.
fn seg_bounds(x0: u16, x1: u16, n: u16, r: u16) -> (b: (u16, u16))
    requires
        1 <= r <= n,
        x0 != x1,
    ensures
        b.0 == seg_lo(x0 as int, x1 - x0 as int, n as int, r as int),
        b.1 == seg_hi(x0 as int, x1 - x0 as int, n as int, r as int),
        b.0 <= b.1,
        if x0 < x1 {
            x0 <= b.0 && b.1 <= x1
        } else {
            x1 <= b.0 && b.1 <= x0
        },
{
    let nn: u64 = n as u64;
    if x0 < x1 {
        let d: u64 = (x1 - x0) as u64;
        proof {
            lemma_mul_upper_bound((r - 1) as int, 0xFFFF, d as int, 0xFFFF);
            lemma_mul_upper_bound(r as int, 0xFFFF, d as int, 0xFFFF);
        }
        let m_lo: u64 = (r - 1) as u64 * d;
        let m_hi: u64 = r as u64 * d + nn - 1;
        let lo: u64 = x0 as u64 + m_lo / nn;
        let hi: u64 = x0 as u64 + m_hi / nn;
        proof {
            lemma_mul_inequality(r - 1, r as int, d as int);
            lemma_div_is_ordered(m_lo as int, m_hi as int, n as int);
            lemma_mul_inequality(r as int, n as int, d as int);
            lemma_div_is_ordered(m_hi as int, n * (d as int) + n - 1, n as int);
            lemma_fundamental_div_mod_converse(n * (d as int) + n - 1, n as int, d as int, n - 1);
        }
        (lo as u16, hi as u16)
    } else {
        let dm: u64 = (x0 - x1) as u64;
        proof {
            lemma_mul_upper_bound(r as int, 0xFFFF, dm as int, 0xFFFF);
            lemma_mul_upper_bound((r - 1) as int, 0xFFFF, dm as int, 0xFFFF);
        }
        let m_lo: u64 = r as u64 * dm;
        let m_hi: u64 = (r - 1) as u64 * dm;
        proof {
            lemma_mul_inequality(r as int, n as int, dm as int);
            lemma_div_is_ordered(m_lo as int + n - 1, n * (dm as int) + n - 1, n as int);
            lemma_fundamental_div_mod_converse(n * (dm as int) + n - 1, n as int, dm as int, n - 1);
            lemma_mul_inequality(r - 1, r as int, dm as int);
            lemma_div_is_ordered(m_hi as int, m_lo as int + n - 1, n as int);
            lemma_div_neg_num_ceil(m_lo as int, n as int);
            lemma_div_neg_num_floor(m_hi as int, n as int);
            assert(r * ((x1 - x0) as int) == -(m_lo as int)) by (nonlinear_arith)
                requires
                    m_lo == r * ((x0 - x1) as int),
            ;
            assert((r - 1) * ((x1 - x0) as int) == -(m_hi as int)) by (nonlinear_arith)
                requires
                    m_hi == (r - 1) * ((x0 - x1) as int),
            ;
        }
        let lo: u64 = x0 as u64 - (m_lo + nn - 1) / nn;
        let hi: u64 = x0 as u64 - m_hi / nn;
        (lo as u16, hi as u16)
    }
}

impl Line {
    pub fn new(start: PVec2, end: PVec2, symbol: char) -> (r: Line)
        ensures
            r == (Line { start, end, symbol }),
    {
        Line { start, end, symbol }
    }

    /// A line given in a scaled view box's domain coordinates, converted to
    /// plot coordinates.
    pub fn in_svb(viewbox: ScaledViewBox, start: Vec2, end: Vec2, symbol: char) -> (r: Line)
        requires
            viewbox.wf(),
        ensures
            r == (Line {
                start: viewbox.translate_spec(start),
                end: viewbox.translate_spec(end),
                symbol,
            }),
    {
        let s = viewbox.translate_to_plot(start);
        let e = viewbox.translate_to_plot(end);
        Line::new(s, e, symbol)
    }

    /// Draw the line in the selected plot area.
    pub fn draw(&self, plot: &Plot) -> (r: Vec<Command>)
        requires
            plot.wf(),
        ensures
            cmd_views(r@) == line_draw_cmds(*plot, *self),
    {
        let sx = self.start.x;
        let sy = self.start.y;
        let ex = self.end.x;
        let ey = self.end.y;
        if sx == ex && sy == ey {
            plot.put(self.symbol, &self.start)
        } else if sy == ey {
            let n: u16 = if sx < ex {
                ex - sx
            } else {
                sx - ex
            };
            let text = crate::text::repeat_chars(self.symbol, n as usize);
            let startp = PVec2 { x: if sx < ex { sx } else { ex }, y: sy };
            plot.put_chars(&text, &startp)
        } else if sx == ex {
            let n: u16 = if sy < ey {
                ey - sy
            } else {
                sy - ey
            };
            let mut text: Vec<char> = Vec::new();
            let mut i: usize = 0;
            while i < n as usize
                invariant
                    i <= n,
                    text@ =~= vertical_text(self.symbol, i as int),
                decreases n - i,
            {
                text.push(self.symbol);
                text.push('\n');
                assert(text@ =~= vertical_text(self.symbol, i + 1));
                i += 1;
            }
            plot.put_chars(&text, &PVec2 { x: sx, y: if sy < ey { sy } else { ey } })
        } else {
            let n: u16 = if sy < ey {
                ey - sy
            } else {
                sy - ey
            };
            let x0: u16 = if sy <= ey {
                sx
            } else {
                ex
            };
            let x1: u16 = if sy <= ey {
                ex
            } else {
                sx
            };
            let mut text: Vec<char> = Vec::new();
            let mut r: usize = 1;
            while r <= n as usize
                invariant
                    1 <= r <= n as usize + 1,
                    n >= 1,
                    x0 != x1,
                    text@ =~= diag_text(x0 as int, x1 - x0 as int, n as int, self.symbol, r - 1),
                decreases n as usize + 1 - r,
            {
                let (lo, hi) = seg_bounds(x0, x1, n, r as u16);
                let mut row = crate::text::repeat_chars(' ', lo as usize);
                let mut sym = crate::text::repeat_chars(self.symbol, (hi - lo) as usize);
                row.append(&mut sym);
                row.push('\n');
                text.append(&mut row);
                assert(text@ =~= diag_text(
                    x0 as int,
                    x1 - x0 as int,
                    n as int,
                    self.symbol,
                    r as int,
                ));
                r += 1;
            }
            plot.put_chars_transparent(
                &text,
                &PVec2 { x: 0, y: if sy < ey { sy } else { ey } },
            )
        }
    }

    /// Draw the line in the selected view box, translated to the box's
    /// origin.
    pub fn draw_vb(&self, viewbox: &ViewBox) -> (r: Vec<Command>)
        requires
            viewbox.plot.wf(),
            self.start.x + viewbox.position.x <= u16::MAX,
            self.start.y + viewbox.position.y <= u16::MAX,
            self.end.x + viewbox.position.x <= u16::MAX,
            self.end.y + viewbox.position.y <= u16::MAX,
        ensures
            cmd_views(r@) == line_draw_cmds(
                viewbox.plot,
                Line {
                    start: PVec2 {
                        x: (self.start.x + viewbox.position.x) as u16,
                        y: (self.start.y + viewbox.position.y) as u16,
                    },
                    end: PVec2 {
                        x: (self.end.x + viewbox.position.x) as u16,
                        y: (self.end.y + viewbox.position.y) as u16,
                    },
                    symbol: self.symbol,
                },
            ),
    {
        Self::new(
            self.start.plus(&viewbox.position),
            self.end.plus(&viewbox.position),
            self.symbol,
        ).draw(&viewbox.plot)
    }
}

/// A rectangle outline, drawn as its four boundary lines with no interior
/// fill.
pub struct Rect {
    pub position: PVec2,
    pub size: PVec2,
    pub symbol: char,
}

/// The commands [`Rect::draw`] emits: the top, bottom, left and right edges,
/// in that order.
pub open spec fn rect_draw_cmds(plot: Plot, rect: Rect) -> Seq<Cmd> {
    let tl = rect.position;
    let tr = PVec2 { x: (rect.position.x + rect.size.x) as u16, y: rect.position.y };
    let bl = PVec2 { x: rect.position.x, y: (rect.position.y + rect.size.y) as u16 };
    let br = PVec2 {
        x: (rect.position.x + rect.size.x) as u16,
        y: (rect.position.y + rect.size.y) as u16,
    };
    line_draw_cmds(plot, Line { start: tl, end: tr, symbol: rect.symbol }) + line_draw_cmds(
        plot,
        Line { start: bl, end: br, symbol: rect.symbol },
    ) + line_draw_cmds(plot, Line { start: tl, end: bl, symbol: rect.symbol }) + line_draw_cmds(
        plot,
        Line { start: tr, end: br, symbol: rect.symbol },
    )
}

/// The cells the four edges of `rect` write: the top and bottom rows across
/// `size.x` columns from the left edge, and the left and right columns
/// across `size.y` rows from the top edge. (Each edge covers its first
/// corner and stops one cell short of its last, so the bottom-right corner
/// cell stays untouched.)
pub open spec fn rect_covers(rect: Rect, x: int, y: int) -> bool {
    let px = rect.position.x as int;
    let py = rect.position.y as int;
    let sx = rect.size.x as int;
    let sy = rect.size.y as int;
    ||| (y == py && px <= x < px + sx)
    ||| (y == py + sy && px <= x < px + sx)
    ||| (x == px && py <= y < py + sy)
    ||| (x == px + sx && py <= y < py + sy)
}

proof fn lemma_split_repeat(c: char, n: int)
    requires
        c != '\n',
        n >= 0,
    ensures
        split_lines_spec(repeat_char(c, n)) == seq![repeat_char(c, n)],
{
    let s = repeat_char(c, n);
    lemma_line_break_at(s);
    assert(line_break_at(s) == n) by {
        if line_break_at(s) < n {
            assert(s[line_break_at(s)] == c);
        }
    }
}

proof fn lemma_vertical_text_head(c: char, n: int)
    requires
        n >= 1,
    ensures
        vertical_text(c, n) == seq![c, '\n'] + vertical_text(c, n - 1),
    decreases n,
{
    if n == 1 {
        assert(vertical_text(c, 1) =~= seq![c, '\n'] + vertical_text(c, 0));
    } else {
        lemma_vertical_text_head(c, n - 1);
        assert((seq![c, '\n'] + vertical_text(c, n - 2)) + seq![c, '\n'] =~= seq![c, '\n'] + (
        vertical_text(c, n - 2) + seq![c, '\n']));
    }
}

/// `n` one-symbol lines followed by one empty line: what the vertical text
/// splits into.
pub open spec fn sing_lines(c: char, n: int) -> Seq<Seq<char>> {
    Seq::new(
        (n + 1) as nat,
        |i: int|
            if i < n {
                seq![c]
            } else {
                Seq::<char>::empty()
            },
    )
}

proof fn lemma_split_vertical(c: char, n: int)
    requires
        c != '\n',
        n >= 0,
    ensures
        split_lines_spec(vertical_text(c, n)) == sing_lines(c, n),
    decreases n,
{
    if n == 0 {
        assert(vertical_text(c, 0) =~= Seq::<char>::empty());
        lemma_line_break_at(vertical_text(c, 0));
        assert(split_lines_spec(vertical_text(c, 0)) =~= sing_lines(c, 0));
    } else {
        lemma_vertical_text_head(c, n);
        let vt = vertical_text(c, n);
        assert(vt[0] == c && vt[1] == '\n');
        lemma_line_break_at(vt);
        assert(line_break_at(vt) == 1) by {
            if line_break_at(vt) == 0 {
                assert(vt[0] == '\n');
            } else if line_break_at(vt) > 1 {
                assert(vt[1] != '\n');
            }
        }
        assert(vt.take(1) =~= seq![c]);
        assert(vt.skip(2) =~= vertical_text(c, n - 1));
        lemma_split_vertical(c, n - 1);
        assert(seq![seq![c]] + sing_lines(c, n - 1) =~= sing_lines(c, n));
    }
}

proof fn lemma_paint_singletons(grid: Seq<Seq<char>>, c: char, x: int, y: int, n: int)
    requires
        n >= 0,
    ensures
        paint_lines(grid, sing_lines(c, n), x, y) == Seq::new(
            grid.len(),
            |r: int|
                if y <= r < y + n {
                    overlay(grid[r], x, seq![c])
                } else {
                    grid[r]
                },
        ),
    decreases n,
{
    reveal_with_fuel(paint_lines, 3);
    if n == 0 {
        assert(sing_lines(c, 0).skip(1) =~= Seq::<Seq<char>>::empty());
        assert(sing_lines(c, 0)[0] =~= Seq::<char>::empty());
        assert(place(grid, y, x, Seq::<char>::empty()) =~~= grid);
        assert(Seq::new(
            grid.len(),
            |r: int|
                if y <= r < y {
                    overlay(grid[r], x, seq![c])
                } else {
                    grid[r]
                },
        ) =~~= grid);
    } else {
        assert(sing_lines(c, n)[0] == seq![c]);
        assert(sing_lines(c, n).skip(1) =~= sing_lines(c, n - 1));
        let g1 = place(grid, y, x, seq![c]);
        lemma_paint_singletons(g1, c, x, y + 1, n - 1);
        assert(paint_lines(grid, sing_lines(c, n), x, y) == paint_lines(
            g1,
            sing_lines(c, n - 1),
            x,
            y + 1,
        ));
        assert(Seq::new(
            g1.len(),
            |r: int|
                if y + 1 <= r < y + n {
                    overlay(g1[r], x, seq![c])
                } else {
                    g1[r]
                },
        ) =~~= Seq::new(
            grid.len(),
            |r: int|
                if y <= r < y + n {
                    overlay(grid[r], x, seq![c])
                } else {
                    grid[r]
                },
        ));
    }
}

/// Law: drawing a rectangle of positive size within the clip bounds writes
/// its symbol on exactly the cells of its four boundary segments; every
/// other cell of the screen — the whole interior included — is unchanged.
///
/// Two boundary inputs are excluded: a rectangle whose right edge sits at
/// column `width` loses that edge to line clipping (each vertical row is cut
/// to the columns left of the edge, here none), and a line-break symbol
/// would be split instead of drawn.
pub proof fn lemma_rect_draw_covers(s: ScreenView, plot: Plot, rect: Rect)
    requires
        s.wf(),
        plot.wf(),
        s.width == plot.width,
        s.height == plot.height,
        rect.size.x >= 1,
        rect.size.y >= 1,
        plot.x_min <= rect.position.x,
        rect.position.x + rect.size.x <= plot.x_max,
        rect.position.x + rect.size.x < plot.width,
        plot.y_min <= rect.position.y,
        rect.position.y + rect.size.y <= plot.y_max,
        rect.symbol != '\n',
    ensures
        s.run(rect_draw_cmds(plot, rect)).grid == Seq::new(
            s.grid.len(),
            |r: int|
                Seq::new(
                    s.grid[r].len(),
                    |cx: int|
                        if rect_covers(rect, cx, r) {
                            rect.symbol
                        } else {
                            s.grid[r][cx]
                        },
                ),
        ),
{
    let px = rect.position.x as int;
    let py = rect.position.y as int;
    let sx = rect.size.x as int;
    let sy = rect.size.y as int;
    let c = rect.symbol;
    let tl = rect.position;
    let tr = PVec2 { x: (px + sx) as u16, y: rect.position.y };
    let bl = PVec2 { x: rect.position.x, y: (py + sy) as u16 };
    let br = PVec2 { x: (px + sx) as u16, y: (py + sy) as u16 };
    let a = line_draw_cmds(plot, Line { start: tl, end: tr, symbol: c });
    let b = line_draw_cmds(plot, Line { start: bl, end: br, symbol: c });
    let cc = line_draw_cmds(plot, Line { start: tl, end: bl, symbol: c });
    let d = line_draw_cmds(plot, Line { start: tr, end: br, symbol: c });
    assert(rect_draw_cmds(plot, rect) == ((a + b) + cc) + d);
    lemma_run_append(s, (a + b) + cc, d);
    lemma_run_append(s, a + b, cc);
    lemma_run_append(s, a, b);

    lemma_split_repeat(c, sx);
    lemma_split_vertical(c, sy);
    let hline = repeat_char(c, sx);

    // Top edge.
    assert(a == put_str_cmds(plot, hline, tl));
    lemma_put_str_effect(s, plot, hline, tl);
    let s1 = s.run(a);
    assert(plot.clamp_to_plot_spec(tl) == tl);
    assert(clipped_lines(hline, plot.width as int, px) =~= seq![hline]) by {
        assert(clip_line(hline, plot.width - px) == hline);
    }
    assert(seq![hline].skip(1) =~= Seq::<Seq<char>>::empty());
    assert(s1.grid == place(s.grid, py, px, hline)) by {
        reveal_with_fuel(paint_lines, 3);
    }

    // Bottom edge.
    assert(b == put_str_cmds(plot, hline, bl));
    lemma_put_str_effect(s1, plot, hline, bl);
    let s2 = s1.run(b);
    assert(plot.clamp_to_plot_spec(bl) == bl);
    assert(s2.grid == place(s1.grid, py + sy, px, hline)) by {
        reveal_with_fuel(paint_lines, 3);
    }

    // Left edge.
    let vtext = vertical_text(c, sy);
    assert(cc == put_str_cmds(plot, vtext, tl));
    lemma_put_str_effect(s2, plot, vtext, tl);
    let s3 = s2.run(cc);
    assert(clipped_lines(vtext, plot.width as int, px) =~= sing_lines(c, sy)) by {
        assert(forall|i: int|
            0 <= i <= sy ==> clip_line(#[trigger] sing_lines(c, sy)[i], plot.width - px)
                == sing_lines(c, sy)[i]);
    }
    lemma_paint_singletons(s2.grid, c, px, py, sy);

    // Right edge.
    assert(d == put_str_cmds(plot, vtext, tr));
    lemma_put_str_effect(s3, plot, vtext, tr);
    let s4 = s3.run(d);
    assert(plot.clamp_to_plot_spec(tr) == tr);
    assert(clipped_lines(vtext, plot.width as int, px + sx) =~= sing_lines(c, sy)) by {
        assert(forall|i: int|
            0 <= i <= sy ==> clip_line(#[trigger] sing_lines(c, sy)[i], plot.width - (px + sx))
                == sing_lines(c, sy)[i]);
    }
    lemma_paint_singletons(s3.grid, c, px + sx, py, sy);

    assert(s4.grid =~~= Seq::new(
        s.grid.len(),
        |r: int|
            Seq::new(
                s.grid[r].len(),
                |cx: int|
                    if rect_covers(rect, cx, r) {
                        rect.symbol
                    } else {
                        s.grid[r][cx]
                    },
            ),
    ));
}

impl Rect {
    pub fn new(position: PVec2, size: PVec2, symbol: char) -> (r: Rect)
        ensures
            r == (Rect { position, size, symbol }),
    {
        Rect { position, size, symbol }
    }

    /// A rectangle given in a scaled view box's domain coordinates,
    /// converted to plot coordinates (the size is converted as a point of
    /// the same domain).
    pub fn in_svb(viewbox: ScaledViewBox, position: Vec2, size: Vec2, symbol: char) -> (r: Rect)
        requires
            viewbox.wf(),
        ensures
            r == (Rect {
                position: viewbox.translate_spec(position),
                size: viewbox.translate_spec(size),
                symbol,
            }),
    {
        let p = viewbox.translate_to_plot(position);
        let s = viewbox.translate_to_plot(size);
        Rect::new(p, s, symbol)
    }

    /// Draw the rectangle's four edges in the selected plot area.
    pub fn draw(&self, plot: &Plot) -> (r: Vec<Command>)
        requires
            plot.wf(),
            self.position.x + self.size.x <= u16::MAX,
            self.position.y + self.size.y <= u16::MAX,
        ensures
            cmd_views(r@) == rect_draw_cmds(*plot, *self),
    {
        let tl = self.position;
        let tr = PVec2 { x: self.position.x + self.size.x, y: self.position.y };
        let bl = PVec2 { x: self.position.x, y: self.position.y + self.size.y };
        let br = PVec2 { x: self.position.x + self.size.x, y: self.position.y + self.size.y };
        let mut cmds = Line::new(tl, tr, self.symbol).draw(plot);
        let mut second = Line::new(bl, br, self.symbol).draw(plot);
        let mut third = Line::new(tl, bl, self.symbol).draw(plot);
        let mut fourth = Line::new(tr, br, self.symbol).draw(plot);
        let ghost g1 = cmds@;
        let ghost g2 = second@;
        let ghost g3 = third@;
        let ghost g4 = fourth@;
        cmds.append(&mut second);
        cmds.append(&mut third);
        cmds.append(&mut fourth);
        proof {
            crate::plot::lemma_cmd_views_append(g1, g2);
            crate::plot::lemma_cmd_views_append(g1 + g2, g3);
            crate::plot::lemma_cmd_views_append((g1 + g2) + g3, g4);
            assert(cmds@ == ((g1 + g2) + g3) + g4);
            assert(cmd_views(cmds@) =~= rect_draw_cmds(*plot, *self));
        }
        cmds
    }

    /// Draw the rectangle in the selected view box, translated to the box's
    /// origin.
    pub fn draw_vb(&self, viewbox: &ViewBox) -> (r: Vec<Command>)
        requires
            viewbox.plot.wf(),
            self.position.x + viewbox.position.x + self.size.x <= u16::MAX,
            self.position.y + viewbox.position.y + self.size.y <= u16::MAX,
        ensures
            cmd_views(r@) == rect_draw_cmds(
                viewbox.plot,
                Rect {
                    position: PVec2 {
                        x: (self.position.x + viewbox.position.x) as u16,
                        y: (self.position.y + viewbox.position.y) as u16,
                    },
                    size: self.size,
                    symbol: self.symbol,
                },
            ),
    {
        Self::new(self.position.plus(&viewbox.position), self.size, self.symbol).draw(
            &viewbox.plot,
        )
    }
}

} // verus!


