//! Line drawing with integer error accumulation, and the closed outline of
//! a polygon built from it.

use crate::framebuffer::{
    lemma_fill_span_joins, lemma_painted_from_trans, lemma_plot_keeps_others, lemma_plot_paints,
    Canvas, Framebuffer,
};
use vstd::prelude::*;

verus! {

/// A polygon corner on the integer pixel grid.
#[derive(Debug, Clone, Copy, PartialEq, Eq, Structural)]
pub struct Vertex {
    pub x: i32,
    pub y: i32,
}

/// Fewest corners that make a polygon.
pub const MIN_POLYGON_VERTICES: usize = 3;

/// The segment from `(x1, y1)` to `(x2, y2)`.
pub struct Segment {
    pub x1: int,
    pub y1: int,
    pub x2: int,
    pub y2: int,
}

impl Segment {
    /// The segment that joins two corners.
    pub open spec fn between(start: Vertex, end: Vertex) -> Segment {
        Segment { x1: start.x as int, y1: start.y as int, x2: end.x as int, y2: end.y as int }
    }

    /// Horizontal extent, never negative.
    pub open spec fn dx(self) -> int {
        if self.x1 < self.x2 {
            self.x2 - self.x1
        } else {
            self.x1 - self.x2
        }
    }

    /// Vertical extent, negated: never positive.
    pub open spec fn dy(self) -> int {
        if self.y1 < self.y2 {
            self.y1 - self.y2
        } else {
            self.y2 - self.y1
        }
    }

    /// Direction of a step along x.
    pub open spec fn sx(self) -> int {
        if self.x1 < self.x2 {
            1
        } else {
            -1
        }
    }

    /// Direction of a step along y.
    pub open spec fn sy(self) -> int {
        if self.y1 < self.y2 {
            1
        } else {
            -1
        }
    }

    /// Steps along x that separate `x` from the end.
    pub open spec fn steps_x(self, x: int) -> int {
        if self.x1 < self.x2 {
            self.x2 - x
        } else {
            x - self.x2
        }
    }

    /// Steps along y that separate `y` from the end.
    pub open spec fn steps_y(self, y: int) -> int {
        if self.y1 < self.y2 {
            self.y2 - y
        } else {
            y - self.y2
        }
    }

    /// `(px, py)` lies on the diagonal that leads from `(x, y)` to the end of
    /// the segment: as many steps along x as along y, and no more than are
    /// left.
    pub open spec fn on_diagonal(self, x: int, y: int, px: int, py: int) -> bool {
        let across = if self.x1 < self.x2 {
            px - x
        } else {
            x - px
        };
        let down = if self.y1 < self.y2 {
            py - y
        } else {
            y - py
        };
        across == down && 0 <= across <= self.steps_x(x)
    }

    /// What holds of every position the walk reaches, with its error term:
    /// the position lies between the two ends, and the steps still to go
    /// along each axis fix the error term.
    pub open spec fn reaches(self, x: int, y: int, err: int) -> bool {
        &&& 0 <= self.steps_x(x) <= self.dx()
        &&& 0 <= self.steps_y(y) <= -self.dy()
        &&& err == self.dx() + self.dy() - self.dy() * self.steps_x(x) - self.dx() * self.steps_y(
            y,
        )
    }

    /// The position and error term that follow `(x, y, err)` in the walk.
    pub open spec fn next(self, x: int, y: int, err: int) -> (int, int, int) {
        let e2 = 2 * err;
        let (err_x, nx) = if e2 >= self.dy() {
            (err + self.dy(), x + self.sx())
        } else {
            (err, x)
        };
        let (err_y, ny) = if e2 <= self.dx() {
            (err_x + self.dx(), y + self.sy())
        } else {
            (err_x, y)
        };
        (nx, ny, err_y)
    }
}

/// One step of the walk stays between the two ends, keeps the error term in
/// step with the position and comes closer to the end.
pub proof fn lemma_walk_step(s: Segment, x: int, y: int, err: int)
    requires
        s.reaches(x, y, err),
        !(x == s.x2 && y == s.y2),
    ensures
        s.reaches(s.next(x, y, err).0, s.next(x, y, err).1, s.next(x, y, err).2),
        s.steps_x(s.next(x, y, err).0) + s.steps_y(s.next(x, y, err).1) < s.steps_x(x) + s.steps_y(
            y,
        ),
{
    let dx = s.dx();
    let ady = -s.dy();
    let rx = s.steps_x(x);
    let ry = s.steps_y(y);
    assert(err == dx - ady + ady * rx - dx * ry) by (nonlinear_arith)
        requires
            err == dx + (-ady) - (-ady) * rx - dx * ry,
    ;
    assert(ady * (rx - 1) == ady * rx - ady) by (nonlinear_arith);
    assert(dx * (ry - 1) == dx * ry - dx) by (nonlinear_arith);
    if rx == 0 {
        assert(ady * rx == 0) by (nonlinear_arith)
            requires
                rx == 0,
        ;
        assert(dx * (ry - 1) >= 0) by (nonlinear_arith)
            requires
                dx >= 0,
                ry >= 1,
        ;
    } else if ry == 0 {
        assert(dx * ry == 0) by (nonlinear_arith)
            requires
                ry == 0,
        ;
        assert(ady * (rx - 1) >= 0) by (nonlinear_arith)
            requires
                ady >= 0,
                rx >= 1,
        ;
    }
    let n = s.next(x, y, err);
    assert(s.dy() * s.steps_x(n.0) == -(ady * s.steps_x(n.0))) by (nonlinear_arith)
        requires
            s.dy() == -ady,
    ;
}

/// The canvas after the walk of `s` has gone on from `(x, y)` with error
/// term `err` to the end of the segment, painting each position it visits.
pub open spec fn walk(c: Canvas, s: Segment, x: int, y: int, err: int) -> Canvas
    decreases s.steps_x(x) + s.steps_y(y),
    when s.reaches(x, y, err)
    via walk_decreases
{
    let painted = c.plot(x, y);
    if x == s.x2 && y == s.y2 {
        painted
    } else {
        let n = s.next(x, y, err);
        walk(painted, s, n.0, n.1, n.2)
    }
}

#[via_fn]
proof fn walk_decreases(c: Canvas, s: Segment, x: int, y: int, err: int) {
    if !(x == s.x2 && y == s.y2) {
        lemma_walk_step(s, x, y, err);
    }
}

/// The canvas with the line from `start` to `end` drawn in the current color.
pub open spec fn draw_line(c: Canvas, start: Vertex, end: Vertex) -> Canvas {
    let s = Segment::between(start, end);
    walk(c, s, s.x1, s.y1, s.dx() + s.dy())
}

/// The corner that follows corner `i` around the polygon; the last is
/// followed by the first.
pub open spec fn successor(vertices: Seq<Vertex>, i: int) -> Vertex {
    if i == vertices.len() - 1 {
        vertices[0]
    } else {
        vertices[i + 1]
    }
}

/// The canvas with the first `n` edges of the polygon drawn.
pub open spec fn draw_edges(c: Canvas, vertices: Seq<Vertex>, n: nat) -> Canvas
    decreases n,
{
    if n == 0 {
        c
    } else {
        draw_line(
            draw_edges(c, vertices, (n - 1) as nat),
            vertices[n - 1],
            successor(vertices, n - 1),
        )
    }
}

/// The canvas with the closed outline of the polygon drawn. Fewer than
/// three corners make no polygon and leave the canvas as it is.
pub open spec fn draw_outline(c: Canvas, vertices: Seq<Vertex>) -> Canvas {
    if vertices.len() < MIN_POLYGON_VERTICES {
        c
    } else {
        draw_edges(c, vertices, vertices.len())
    }
}

/// At its start the walk has taken no step.
pub proof fn lemma_walk_start(s: Segment)
    ensures
        s.reaches(s.x1, s.y1, s.dx() + s.dy()),
        s.steps_x(s.x1) == s.dx(),
        s.steps_y(s.y1) == -s.dy(),
{
    let dx = s.dx();
    let dy = s.dy();
    assert(dx + dy - dy * dx - dx * (-dy) == dx + dy) by (nonlinear_arith);
}

/// The walk along a segment only paints: it never resizes the canvas and
/// never gives a pixel a color other than the current one.
pub proof fn lemma_walk_paints(c: Canvas, s: Segment, x: int, y: int, err: int)
    requires
        c.wf(),
        s.reaches(x, y, err),
    ensures
        walk(c, s, x, y, err).wf(),
        walk(c, s, x, y, err).painted_from(c),
    decreases s.steps_x(x) + s.steps_y(y),
{
    let painted = c.plot(x, y);
    lemma_plot_paints(c, x, y);
    if !(x == s.x2 && y == s.y2) {
        let n = s.next(x, y, err);
        lemma_walk_step(s, x, y, err);
        lemma_walk_paints(painted, s, n.0, n.1, n.2);
        lemma_painted_from_trans(c, painted, walk(painted, s, n.0, n.1, n.2));
    }
}

/// Drawing a line only paints.
pub proof fn lemma_line_paints(c: Canvas, start: Vertex, end: Vertex)
    requires
        c.wf(),
    ensures
        draw_line(c, start, end).wf(),
        draw_line(c, start, end).painted_from(c),
{
    let s = Segment::between(start, end);
    lemma_walk_start(s);
    lemma_walk_paints(c, s, s.x1, s.y1, s.dx() + s.dy());
}

/// Both ends of the segment lie beyond the same side of the canvas.
pub open spec fn misses(s: Segment, c: Canvas) -> bool {
    ||| s.x1 < 0 && s.x2 < 0
    ||| s.y1 < 0 && s.y2 < 0
    ||| s.x1 >= c.width && s.x2 >= c.width
    ||| s.y1 >= c.height && s.y2 >= c.height
}

/// A walk along a segment that misses the canvas changes nothing.
pub proof fn lemma_walk_outside(c: Canvas, s: Segment, x: int, y: int, err: int)
    requires
        s.reaches(x, y, err),
        misses(s, c),
    ensures
        walk(c, s, x, y, err) == c,
    decreases s.steps_x(x) + s.steps_y(y),
{
    assert(!c.in_bounds(x, y));
    if !(x == s.x2 && y == s.y2) {
        let n = s.next(x, y, err);
        lemma_walk_step(s, x, y, err);
        lemma_walk_outside(c, s, n.0, n.1, n.2);
    }
}

/// A line whose two ends lie beyond the same side of the canvas changes
/// nothing.
pub proof fn lemma_line_outside(c: Canvas, start: Vertex, end: Vertex)
    requires
        misses(Segment::between(start, end), c),
    ensures
        draw_line(c, start, end) == c,
{
    let s = Segment::between(start, end);
    lemma_walk_start(s);
    lemma_walk_outside(c, s, s.x1, s.y1, s.dx() + s.dy());
}

/// A horizontal line is the span between its two ends.
pub proof fn lemma_horizontal_line(c: Canvas, start: Vertex, end: Vertex)
    requires
        c.wf(),
        start.y == end.y,
    ensures
        draw_line(c, start, end) == if start.x <= end.x {
            c.fill_span(start.y as int, start.x as int, end.x as int)
        } else {
            c.fill_span(start.y as int, end.x as int, start.x as int)
        },
{
    let s = Segment::between(start, end);
    lemma_walk_start(s);
    lemma_walk_horizontal(c, s, s.x1, s.dx() + s.dy());
}

/// The rest of a horizontal walk fills the span from where it stands to the
/// end of the segment.
pub proof fn lemma_walk_horizontal(c: Canvas, s: Segment, x: int, err: int)
    requires
        c.wf(),
        s.y1 == s.y2,
        s.reaches(x, s.y1, err),
    ensures
        walk(c, s, x, s.y1, err) == if s.x1 < s.x2 {
            c.fill_span(s.y1, x, s.x2)
        } else {
            c.fill_span(s.y1, s.x2, x)
        },
    decreases s.steps_x(x),
{
    let y = s.y1;
    let painted = c.plot(x, y);
    lemma_plot_paints(c, x, y);
    if x == s.x2 {
        lemma_fill_span_joins(c, y, x, x + 1, x);
        assert(painted.pixels =~= painted.fill_span(y, x + 1, x).pixels);
    } else {
        let n = s.next(x, y, err);
        lemma_walk_step(s, x, y, err);
        assert(s.dy() * s.steps_x(x) == 0) by (nonlinear_arith)
            requires
                s.dy() == 0,
        ;
        assert(s.dx() * s.steps_y(y) == 0) by (nonlinear_arith)
            requires
                s.steps_y(y) == 0,
        ;
        assert(n.1 == y);
        lemma_walk_horizontal(painted, s, n.0, n.2);
        if s.x1 < s.x2 {
            lemma_fill_span_joins(c, y, x, x + 1, s.x2);
        } else {
            lemma_fill_span_joins(c, y, x, s.x2, x - 1);
        }
    }
}

/// A vertical line paints the pixels of its column between its two ends and
/// leaves every other pixel of the canvas as it was.
pub proof fn lemma_vertical_line(c: Canvas, start: Vertex, end: Vertex, px: int, py: int)
    requires
        c.wf(),
        start.x == end.x,
        c.in_bounds(px, py),
    ensures
        draw_line(c, start, end).at(px, py) == if px == start.x && (start.y <= py <= end.y || end.y
            <= py <= start.y) {
            c.current_color
        } else {
            c.at(px, py)
        },
{
    let s = Segment::between(start, end);
    lemma_walk_start(s);
    lemma_walk_vertical(c, s, s.y1, s.dx() + s.dy(), px, py);
}

/// The rest of a vertical walk paints its column from where it stands to
/// the end of the segment.
pub proof fn lemma_walk_vertical(c: Canvas, s: Segment, y: int, err: int, px: int, py: int)
    requires
        c.wf(),
        s.x1 == s.x2,
        s.reaches(s.x1, y, err),
        c.in_bounds(px, py),
    ensures
        walk(c, s, s.x1, y, err).at(px, py) == if px == s.x1 && (y <= py <= s.y2 || s.y2 <= py
            <= y) {
            c.current_color
        } else {
            c.at(px, py)
        },
    decreases s.steps_y(y),
{
    let x = s.x1;
    let painted = c.plot(x, y);
    lemma_plot_paints(c, x, y);
    if px == x && py == y {
        crate::framebuffer::lemma_plot_then_read(c, x, y);
    } else {
        lemma_plot_keeps_others(c, x, y, px, py);
    }
    if y != s.y2 {
        let n = s.next(x, y, err);
        lemma_walk_step(s, x, y, err);
        assert(s.dy() * s.steps_x(x) == 0) by (nonlinear_arith)
            requires
                s.steps_x(x) == 0,
        ;
        assert(s.dx() * s.steps_y(y) == 0) by (nonlinear_arith)
            requires
                s.dx() == 0,
        ;
        assert(n.0 == x);
        lemma_walk_vertical(painted, s, n.1, n.2, px, py);
    }
}

/// A line that is as wide as it is high paints the pixels of its diagonal
/// between its two ends and leaves every other pixel of the canvas as it
/// was.
pub proof fn lemma_diagonal_line(c: Canvas, start: Vertex, end: Vertex, px: int, py: int)
    requires
        c.wf(),
        Segment::between(start, end).dx() == -Segment::between(start, end).dy(),
        c.in_bounds(px, py),
    ensures
        draw_line(c, start, end).at(px, py) == if Segment::between(start, end).on_diagonal(
            start.x as int,
            start.y as int,
            px,
            py,
        ) {
            c.current_color
        } else {
            c.at(px, py)
        },
{
    let s = Segment::between(start, end);
    lemma_walk_start(s);
    lemma_walk_diagonal(c, s, s.x1, s.y1, s.dx() + s.dy(), px, py);
}

/// The rest of a diagonal walk paints the diagonal from where it stands to
/// the end of the segment.
pub proof fn lemma_walk_diagonal(c: Canvas, s: Segment, x: int, y: int, err: int, px: int, py: int)
    requires
        c.wf(),
        s.dx() == -s.dy(),
        s.reaches(x, y, err),
        s.steps_x(x) == s.steps_y(y),
        c.in_bounds(px, py),
    ensures
        walk(c, s, x, y, err).at(px, py) == if s.on_diagonal(x, y, px, py) {
            c.current_color
        } else {
            c.at(px, py)
        },
    decreases s.steps_x(x),
{
    let painted = c.plot(x, y);
    lemma_plot_paints(c, x, y);
    if px == x && py == y {
        crate::framebuffer::lemma_plot_then_read(c, x, y);
    } else {
        lemma_plot_keeps_others(c, x, y, px, py);
    }
    if !(x == s.x2 && y == s.y2) {
        let n = s.next(x, y, err);
        lemma_walk_step(s, x, y, err);
        assert(err == 0) by (nonlinear_arith)
            requires
                err == s.dx() + s.dy() - s.dy() * s.steps_x(x) - s.dx() * s.steps_y(y),
                s.dx() == -s.dy(),
                s.steps_x(x) == s.steps_y(y),
        ;
        lemma_walk_diagonal(painted, s, n.0, n.1, n.2, px, py);
    }
}

/// A pixel outside the box that the two ends of a line span is as it was
/// after the line is drawn.
pub proof fn lemma_line_keeps_outside_box(c: Canvas, start: Vertex, end: Vertex, px: int, py: int)
    requires
        c.wf(),
        c.in_bounds(px, py),
        !(start.x <= px <= end.x || end.x <= px <= start.x) || !(start.y <= py <= end.y || end.y
            <= py <= start.y),
    ensures
        draw_line(c, start, end).at(px, py) == c.at(px, py),
{
    let s = Segment::between(start, end);
    lemma_walk_start(s);
    lemma_walk_keeps_outside_box(c, s, s.x1, s.y1, s.dx() + s.dy(), px, py);
}

/// The rest of a walk leaves a pixel outside the segment's box as it was.
pub proof fn lemma_walk_keeps_outside_box(
    c: Canvas,
    s: Segment,
    x: int,
    y: int,
    err: int,
    px: int,
    py: int,
)
    requires
        c.wf(),
        s.reaches(x, y, err),
        c.in_bounds(px, py),
        !(s.x1 <= px <= s.x2 || s.x2 <= px <= s.x1) || !(s.y1 <= py <= s.y2 || s.y2 <= py <= s.y1),
    ensures
        walk(c, s, x, y, err).at(px, py) == c.at(px, py),
    decreases s.steps_x(x) + s.steps_y(y),
{
    let painted = c.plot(x, y);
    lemma_plot_paints(c, x, y);
    lemma_plot_keeps_others(c, x, y, px, py);
    if !(x == s.x2 && y == s.y2) {
        let n = s.next(x, y, err);
        lemma_walk_step(s, x, y, err);
        lemma_walk_keeps_outside_box(painted, s, n.0, n.1, n.2, px, py);
    }
}

/// The two ends of a line are painted where they lie on the canvas.
pub proof fn lemma_line_paints_ends(c: Canvas, start: Vertex, end: Vertex)
    requires
        c.wf(),
    ensures
        c.in_bounds(start.x as int, start.y as int) ==> draw_line(c, start, end).at(
            start.x as int,
            start.y as int,
        ) == c.current_color,
        c.in_bounds(end.x as int, end.y as int) ==> draw_line(c, start, end).at(
            end.x as int,
            end.y as int,
        ) == c.current_color,
{
    let s = Segment::between(start, end);
    lemma_walk_start(s);
    if c.in_bounds(s.x1, s.y1) {
        lemma_walk_keeps_painted(c, s, s.x1, s.y1, s.dx() + s.dy(), s.x1, s.y1);
    }
    if c.in_bounds(s.x2, s.y2) {
        lemma_walk_keeps_painted(c, s, s.x1, s.y1, s.dx() + s.dy(), s.x2, s.y2);
    }
}

/// A pixel that is painted already, or is where the walk stands or ends, is
/// painted when the walk is done.
pub proof fn lemma_walk_keeps_painted(
    c: Canvas,
    s: Segment,
    x: int,
    y: int,
    err: int,
    px: int,
    py: int,
)
    requires
        c.wf(),
        s.reaches(x, y, err),
        c.in_bounds(px, py),
        c.at(px, py) == c.current_color || (px == x && py == y) || (px == s.x2 && py == s.y2),
    ensures
        walk(c, s, x, y, err).at(px, py) == c.current_color,
    decreases s.steps_x(x) + s.steps_y(y),
{
    let painted = c.plot(x, y);
    lemma_plot_paints(c, x, y);
    if px == x && py == y {
        crate::framebuffer::lemma_plot_then_read(c, x, y);
    } else {
        lemma_plot_keeps_others(c, x, y, px, py);
    }
    if !(x == s.x2 && y == s.y2) {
        let n = s.next(x, y, err);
        lemma_walk_step(s, x, y, err);
        lemma_walk_keeps_painted(painted, s, n.0, n.1, n.2, px, py);
    }
}

/// Drawing edges of a polygon only paints.
pub proof fn lemma_edges_paint(c: Canvas, vertices: Seq<Vertex>, n: nat)
    requires
        c.wf(),
    ensures
        draw_edges(c, vertices, n).wf(),
        draw_edges(c, vertices, n).painted_from(c),
    decreases n,
{
    if n > 0 {
        let before = draw_edges(c, vertices, (n - 1) as nat);
        lemma_edges_paint(c, vertices, (n - 1) as nat);
        lemma_line_paints(before, vertices[n - 1], successor(vertices, n - 1));
        lemma_painted_from_trans(c, before, draw_edges(c, vertices, n));
    }
}

/// Drawing the outline of a polygon only paints.
pub proof fn lemma_outline_paints(c: Canvas, vertices: Seq<Vertex>)
    requires
        c.wf(),
    ensures
        draw_outline(c, vertices).wf(),
        draw_outline(c, vertices).painted_from(c),
{
    lemma_edges_paint(c, vertices, vertices.len());
}

/// Something lines and closed outlines can be drawn on.
pub trait Line {
    /// The canvas that the value stands for.
    spec fn canvas(&self) -> Canvas;

    /// The value is a canvas in good order.
    spec fn drawable(&self) -> bool;

    /// Draws the line from `start` to `end` in the current color, clipped to
    /// the canvas.
    fn line(&mut self, start: Vertex, end: Vertex)
        requires
            old(self).drawable(),
        ensures
            final(self).drawable(),
            final(self).canvas() == draw_line(old(self).canvas(), start, end),
    ;

    /// Draws the closed outline of the polygon: a line from each corner to
    /// the next and from the last back to the first.
    fn draw_polygon(&mut self, vertices: &[Vertex])
        requires
            old(self).drawable(),
        ensures
            final(self).drawable(),
            final(self).canvas() == draw_outline(old(self).canvas(), vertices@),
    ;
}

impl Line for Framebuffer {
    open spec fn canvas(&self) -> Canvas {
        self@
    }

    open spec fn drawable(&self) -> bool {
        self.wf()
    }

    fn line(&mut self, start: Vertex, end: Vertex) {
        let x1: i64 = start.x as i64;
        let y1: i64 = start.y as i64;
        let x2: i64 = end.x as i64;
        let y2: i64 = end.y as i64;

        let dx: i64 = if x1 < x2 {
            x2 - x1
        } else {
            x1 - x2
        };
        let sx: i64 = if x1 < x2 {
            1
        } else {
            -1
        };
        let dy: i64 = if y1 < y2 {
            y1 - y2
        } else {
            y2 - y1
        };
        let sy: i64 = if y1 < y2 {
            1
        } else {
            -1
        };
        let mut err: i64 = dx + dy;

        let mut x: i64 = x1;
        let mut y: i64 = y1;
        let ghost s = Segment::between(start, end);
        let ghost goal = draw_line(old(self)@, start, end);
        proof {
            lemma_walk_start(s);
        }
        loop
            invariant_except_break
                s.reaches(x as int, y as int, err as int),
                2 * dy <= err <= 2 * dx,
                walk(self@, s, x as int, y as int, err as int) == goal,
            invariant
                self.wf(),
                s == Segment::between(start, end),
                x2 == s.x2,
                y2 == s.y2,
                dx == s.dx(),
                dy == s.dy(),
                sx == s.sx(),
                sy == s.sy(),
                0 <= dx <= 0xFFFF_FFFF,
                -0xFFFF_FFFF <= dy <= 0,
            ensures
                self@ == goal,
            decreases s.steps_x(x as int) + s.steps_y(y as int),
        {
            self.plot(x, y);
            if x == x2 && y == y2 {
                break ;
            }
            proof {
                lemma_walk_step(s, x as int, y as int, err as int);
            }
            let e2: i64 = 2 * err;
            if e2 >= dy {
                err += dy;
                x += sx;
            }
            if e2 <= dx {
                err += dx;
                y += sy;
            }
        }
    }

    fn draw_polygon(&mut self, vertices: &[Vertex]) {
        if vertices.len() < MIN_POLYGON_VERTICES {
            return ;
        }
        let n = vertices.len();
        let mut i: usize = 0;
        while i < n
            invariant
                i <= n,
                n == vertices@.len(),
                n >= MIN_POLYGON_VERTICES,
                self.wf(),
                self@ == draw_edges(old(self)@, vertices@, i as nat),
            decreases n - i,
        {
            let start = vertices[i];
            let end = if i == n - 1 {
                vertices[0]
            } else {
                vertices[i + 1]
            };
            self.line(start, end);
            i += 1;
        }
    }
}

} // verus!
