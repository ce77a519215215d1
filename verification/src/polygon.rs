//! Polygons on a canvas: the closed outline, and the even-odd scanline fill.

use crate::framebuffer::{
    lemma_fill_span_at, lemma_fill_span_paints, lemma_painted_from_trans, Canvas, Framebuffer,
};
use crate::line_impl::{draw_outline, successor, Line, Vertex, MIN_POLYGON_VERTICES};
use vstd::prelude::*;
use vstd::relations::{sorted_by, total_ordering};
use vstd::seq_lib::{lemma_sorted_unique, to_multiset_build};

verus! {

/// The scanline `y` crosses the edge from `start` to `end`: one end lies on
/// or above the scanline and the other strictly below it. A horizontal edge
/// is never crossed, and of two edges that meet on the scanline only the
/// one that goes on downward is.
pub open spec fn crosses(start: Vertex, end: Vertex, y: int) -> bool {
    (start.y <= y && end.y > y) || (end.y <= y && start.y > y)
}

/// `num / den` rounded to the nearest integer, a tie away from zero.
pub open spec fn round_div(num: int, den: int) -> int {
    let n = if num < 0 {
        -num
    } else {
        num
    };
    let d = if den < 0 {
        -den
    } else {
        den
    };
    let m = (2 * n + d) / (2 * d);
    if (num < 0) != (den < 0) {
        -m
    } else {
        m
    }
}

/// Where the scanline `y` meets the edge from `start` to `end`: the point of
/// the edge at height `y`, found by linear interpolation, with its x rounded
/// to the nearest pixel.
pub open spec fn intersection(start: Vertex, end: Vertex, y: int) -> int {
    round_div(
        start.x * (end.y - start.y) + (y - start.y) * (end.x - start.x),
        end.y - start.y,
    )
}

/// The intersections of scanline `y` with the first `n` edges of the
/// polygon, in the order of the edges.
pub open spec fn crossings(vertices: Seq<Vertex>, y: int, n: nat) -> Seq<int>
    decreases n,
{
    if n == 0 {
        Seq::empty()
    } else {
        let before = crossings(vertices, y, (n - 1) as nat);
        let start = vertices[n - 1];
        let end = successor(vertices, n - 1);
        if crosses(start, end, y) {
            before.push(intersection(start, end, y))
        } else {
            before
        }
    }
}

/// The order in which intersections are paired.
pub open spec fn ascending() -> spec_fn(int, int) -> bool {
    |a: int, b: int| a <= b
}

/// The intersections of scanline `y` with all edges, in ascending order.
pub open spec fn sorted_crossings(vertices: Seq<Vertex>, y: int) -> Seq<int> {
    crossings(vertices, y, vertices.len()).sort_by(ascending())
}

impl Canvas {
    /// The canvas with the first `pairs` spans of row `y` filled: the span
    /// from `xs[0]` to `xs[1]`, the span from `xs[2]` to `xs[3]`, and so on.
    pub open spec fn fill_pairs(self, y: int, xs: Seq<int>, pairs: nat) -> Canvas
        decreases pairs,
    {
        if pairs == 0 {
            self
        } else {
            self.fill_pairs(y, xs, (pairs - 1) as nat).fill_span(
                y,
                xs[2 * pairs - 2],
                xs[2 * pairs - 1],
            )
        }
    }

    /// The canvas with row `y` of the polygon filled: the sorted
    /// intersections are paired two at a time, and one left over is dropped.
    pub open spec fn fill_row(self, vertices: Seq<Vertex>, y: int) -> Canvas {
        let xs = sorted_crossings(vertices, y);
        self.fill_pairs(y, xs, xs.len() / 2)
    }

    /// The canvas with the `rows` rows from `top` downward filled.
    pub open spec fn fill_rows(self, vertices: Seq<Vertex>, top: int, rows: nat) -> Canvas
        decreases rows,
    {
        if rows == 0 {
            self
        } else {
            self.fill_rows(vertices, top, (rows - 1) as nat).fill_row(vertices, top + rows - 1)
        }
    }
}

/// Smallest y among the first `n` corners, `n` at least one.
pub open spec fn min_y(vertices: Seq<Vertex>, n: nat) -> int
    decreases n,
{
    if n <= 1 {
        vertices[0].y as int
    } else {
        let rest = min_y(vertices, (n - 1) as nat);
        if vertices[n - 1].y < rest {
            vertices[n - 1].y as int
        } else {
            rest
        }
    }
}

/// Largest y among the first `n` corners, `n` at least one.
pub open spec fn max_y(vertices: Seq<Vertex>, n: nat) -> int
    decreases n,
{
    if n <= 1 {
        vertices[0].y as int
    } else {
        let rest = max_y(vertices, (n - 1) as nat);
        if vertices[n - 1].y > rest {
            vertices[n - 1].y as int
        } else {
            rest
        }
    }
}

/// The canvas with the inside of the polygon in the current color, by the
/// even-odd rule, row by row from the topmost corner to the lowest. Fewer
/// than three corners make no polygon and leave the canvas as it is.
pub open spec fn fill(c: Canvas, vertices: Seq<Vertex>) -> Canvas {
    if vertices.len() < MIN_POLYGON_VERTICES {
        c
    } else {
        let top = min_y(vertices, vertices.len());
        let bottom = max_y(vertices, vertices.len());
        c.fill_rows(vertices, top, (bottom - top + 1) as nat)
    }
}

/// A quotient of a multiple range stays in the range when rounded.
pub proof fn lemma_round_div_between(n: int, d: int, lo: int, hi: int)
    requires
        d > 0,
        lo * d <= n <= hi * d,
    ensures
        lo <= round_div(n, d) <= hi,
{
    let a = if n < 0 {
        -n
    } else {
        n
    };
    let m = (2 * a + d) / (2 * d);
    assert(m >= 0) by (nonlinear_arith)
        requires
            m == (2 * a + d) / (2 * d),
            a >= 0,
            d > 0,
    ;
    if n >= 0 {
        assert(hi >= 0) by (nonlinear_arith)
            requires
                hi * d >= 0,
                d > 0,
        ;
        assert(m <= hi) by (nonlinear_arith)
            requires
                m == (2 * a + d) / (2 * d),
                a <= hi * d,
                d > 0,
                hi >= 0,
        ;
        if lo > 0 {
            assert(m >= lo) by (nonlinear_arith)
                requires
                    m == (2 * a + d) / (2 * d),
                    a >= lo * d,
                    d > 0,
                    lo > 0,
            ;
        }
    } else {
        let nlo = -lo;
        let nhi = -hi;
        assert(a <= nlo * d && nhi * d <= a) by (nonlinear_arith)
            requires
                a == -n,
                lo * d <= n <= hi * d,
                nlo == -lo,
                nhi == -hi,
        ;
        assert(nlo >= 0) by (nonlinear_arith)
            requires
                nlo * d >= a,
                a > 0,
                d > 0,
        ;
        assert(m <= nlo) by (nonlinear_arith)
            requires
                m == (2 * a + d) / (2 * d),
                a <= nlo * d,
                d > 0,
                nlo >= 0,
        ;
        if nhi > 0 {
            assert(m >= nhi) by (nonlinear_arith)
                requires
                    m == (2 * a + d) / (2 * d),
                    a >= nhi * d,
                    d > 0,
                    nhi > 0,
            ;
        }
    }
}

/// Where a scanline meets an edge that it crosses lies between the two ends
/// of the edge.
pub proof fn lemma_intersection_between(start: Vertex, end: Vertex, y: int)
    requires
        crosses(start, end, y),
    ensures
        start.x <= intersection(start, end, y) <= end.x || end.x <= intersection(start, end, y)
            <= start.x,
{
    let a = start.x as int;
    let b = end.x as int;
    let den = end.y - start.y;
    let k = y - start.y;
    let num = a * den + k * (b - a);
    let d = if den < 0 {
        -den
    } else {
        den
    };
    let j = if den < 0 {
        -k
    } else {
        k
    };
    let n = if den < 0 {
        -num
    } else {
        num
    };
    assert(0 <= j <= d && d > 0);
    assert(n == a * d + j * (b - a)) by (nonlinear_arith)
        requires
            num == a * den + k * (b - a),
            (den < 0 && d == -den && j == -k && n == -num) || (den >= 0 && d == den && j == k && n
                == num),
    ;
    let lo = if a <= b {
        a
    } else {
        b
    };
    let hi = if a <= b {
        b
    } else {
        a
    };
    assert(lo * d <= n <= hi * d) by (nonlinear_arith)
        requires
            n == a * d + j * (b - a),
            0 <= j <= d,
            (a <= b && lo == a && hi == b) || (b < a && lo == b && hi == a),
    ;
    lemma_round_div_between(n, d, lo, hi);
    assert(round_div(num, den) == round_div(n, d)) by {
        if num == 0 {
            assert((2 * 0 + d) / (2 * d) == 0) by (nonlinear_arith)
                requires
                    d > 0,
            ;
        }
    }
}

/// Filling spans of a row only paints, and only in that row.
pub proof fn lemma_fill_pairs_paints(c: Canvas, y: int, xs: Seq<int>, pairs: nat)
    requires
        c.wf(),
    ensures
        c.fill_pairs(y, xs, pairs).wf(),
        c.fill_pairs(y, xs, pairs).painted_from(c),
        forall|px: int, py: int|
            c.in_bounds(px, py) && py != y ==> #[trigger] c.fill_pairs(y, xs, pairs).at(px, py)
                == c.at(px, py),
    decreases pairs,
{
    if pairs > 0 {
        let before = c.fill_pairs(y, xs, (pairs - 1) as nat);
        let from = xs[2 * pairs - 2];
        let to = xs[2 * pairs - 1];
        lemma_fill_pairs_paints(c, y, xs, (pairs - 1) as nat);
        lemma_fill_span_paints(before, y, from, to);
        lemma_painted_from_trans(c, before, before.fill_span(y, from, to));
        assert forall|px: int, py: int| c.in_bounds(px, py) && py != y implies #[trigger] c.fill_pairs(
            y,
            xs,
            pairs,
        ).at(px, py) == c.at(px, py) by {
            lemma_fill_span_at(before, y, from, to, px, py);
            assert(before.at(px, py) == c.at(px, py));
        }
    }
}

/// Filling rows of a polygon only paints, and only in those rows.
pub proof fn lemma_fill_rows_paints(c: Canvas, vertices: Seq<Vertex>, top: int, rows: nat)
    requires
        c.wf(),
    ensures
        c.fill_rows(vertices, top, rows).wf(),
        c.fill_rows(vertices, top, rows).painted_from(c),
        forall|px: int, py: int|
            c.in_bounds(px, py) && !(top <= py < top + rows) ==> #[trigger] c.fill_rows(
                vertices,
                top,
                rows,
            ).at(px, py) == c.at(px, py),
    decreases rows,
{
    if rows > 0 {
        let before = c.fill_rows(vertices, top, (rows - 1) as nat);
        let y = top + rows - 1;
        let xs = sorted_crossings(vertices, y);
        lemma_fill_rows_paints(c, vertices, top, (rows - 1) as nat);
        lemma_fill_pairs_paints(before, y, xs, xs.len() / 2);
        lemma_painted_from_trans(c, before, before.fill_row(vertices, y));
        assert forall|px: int, py: int|
            c.in_bounds(px, py) && !(top <= py < top + rows) implies #[trigger] c.fill_rows(
            vertices,
            top,
            rows,
        ).at(px, py) == c.at(px, py) by {
            assert(before.at(px, py) == c.at(px, py));
            assert(before.fill_pairs(y, xs, xs.len() / 2).at(px, py) == before.at(px, py));
        }
    }
}

/// Filling a polygon only paints: the canvas keeps its size and its colors,
/// each pixel stays as it was or takes the current color, and a pixel above
/// the topmost corner or below the lowest stays as it was.
pub proof fn lemma_fill_paints(c: Canvas, vertices: Seq<Vertex>)
    requires
        c.wf(),
    ensures
        fill(c, vertices).wf(),
        fill(c, vertices).painted_from(c),
        forall|px: int, py: int|
            c.in_bounds(px, py) && vertices.len() >= 1 && !(min_y(vertices, vertices.len()) <= py
                <= max_y(vertices, vertices.len())) ==> #[trigger] fill(c, vertices).at(px, py)
                == c.at(px, py),
{
    if vertices.len() >= MIN_POLYGON_VERTICES {
        let top = min_y(vertices, vertices.len());
        let bottom = max_y(vertices, vertices.len());
        lemma_fill_rows_paints(c, vertices, top, (bottom - top + 1) as nat);
    }
}

/// Every corner of the polygon lies in the columns `lo` to `hi`.
pub open spec fn within_columns(vertices: Seq<Vertex>, lo: int, hi: int) -> bool {
    forall|i: int| 0 <= i < vertices.len() ==> lo <= (#[trigger] vertices[i]).x <= hi
}

/// The intersections of a scanline with the edges lie in the columns that
/// hold the corners.
pub proof fn lemma_crossings_within(vertices: Seq<Vertex>, y: int, n: nat, lo: int, hi: int)
    requires
        n <= vertices.len(),
        within_columns(vertices, lo, hi),
    ensures
        forall|i: int|
            0 <= i < crossings(vertices, y, n).len() ==> lo <= #[trigger] crossings(
                vertices,
                y,
                n,
            )[i] <= hi,
    decreases n,
{
    if n > 0 {
        lemma_crossings_within(vertices, y, (n - 1) as nat, lo, hi);
        let before = crossings(vertices, y, (n - 1) as nat);
        let now = crossings(vertices, y, n);
        let start = vertices[n - 1];
        let end = successor(vertices, n - 1);
        assert(lo <= start.x <= hi);
        assert(lo <= end.x <= hi);
        if crosses(start, end, y) {
            lemma_intersection_between(start, end, y);
            assert(now == before.push(intersection(start, end, y)));
        } else {
            assert(now == before);
        }
        assert forall|i: int| 0 <= i < now.len() implies lo <= #[trigger] now[i] <= hi by {
            if i < before.len() {
                assert(now[i] == before[i]);
            }
        }
    }
}

/// Sorting the intersections moves none out of the columns that hold the
/// corners.
pub proof fn lemma_sorted_crossings_within(vertices: Seq<Vertex>, y: int, lo: int, hi: int)
    requires
        within_columns(vertices, lo, hi),
    ensures
        forall|i: int|
            0 <= i < sorted_crossings(vertices, y).len() ==> lo <= #[trigger] sorted_crossings(
                vertices,
                y,
            )[i] <= hi,
{
    let raw = crossings(vertices, y, vertices.len());
    let sorted = sorted_crossings(vertices, y);
    assert(total_ordering(ascending()));
    raw.lemma_sort_by_ensures(ascending());
    lemma_crossings_within(vertices, y, vertices.len(), lo, hi);
    assert forall|i: int| 0 <= i < sorted.len() implies lo <= #[trigger] sorted[i] <= hi by {
        let x = sorted[i];
        assert(sorted.contains(x));
        assert(raw.contains(x));
        let j = choose|j: int| 0 <= j < raw.len() && raw[j] == x;
        assert(lo <= raw[j] <= hi);
    }
}

/// Spans between bounds that lie in the columns `lo` to `hi` leave a pixel
/// in another column as it was.
pub proof fn lemma_fill_pairs_within(
    c: Canvas,
    y: int,
    xs: Seq<int>,
    pairs: nat,
    lo: int,
    hi: int,
    px: int,
    py: int,
)
    requires
        c.wf(),
        2 * pairs <= xs.len(),
        forall|i: int| 0 <= i < xs.len() ==> lo <= #[trigger] xs[i] <= hi,
        c.in_bounds(px, py),
        px < lo || px > hi,
    ensures
        c.fill_pairs(y, xs, pairs).at(px, py) == c.at(px, py),
    decreases pairs,
{
    if pairs > 0 {
        let before = c.fill_pairs(y, xs, (pairs - 1) as nat);
        lemma_fill_pairs_within(c, y, xs, (pairs - 1) as nat, lo, hi, px, py);
        lemma_fill_pairs_paints(c, y, xs, (pairs - 1) as nat);
        lemma_fill_span_at(before, y, xs[2 * pairs - 2], xs[2 * pairs - 1], px, py);
    }
}

/// Filling rows of a polygon leaves a pixel in a column that holds no corner
/// and has all corners on one side as it was.
pub proof fn lemma_fill_rows_within(
    c: Canvas,
    vertices: Seq<Vertex>,
    top: int,
    rows: nat,
    lo: int,
    hi: int,
    px: int,
    py: int,
)
    requires
        c.wf(),
        within_columns(vertices, lo, hi),
        c.in_bounds(px, py),
        px < lo || px > hi,
    ensures
        c.fill_rows(vertices, top, rows).at(px, py) == c.at(px, py),
    decreases rows,
{
    if rows > 0 {
        let before = c.fill_rows(vertices, top, (rows - 1) as nat);
        let y = top + rows - 1;
        let xs = sorted_crossings(vertices, y);
        lemma_fill_rows_within(c, vertices, top, (rows - 1) as nat, lo, hi, px, py);
        lemma_fill_rows_paints(c, vertices, top, (rows - 1) as nat);
        lemma_sorted_crossings_within(vertices, y, lo, hi);
        lemma_fill_pairs_within(before, y, xs, xs.len() / 2, lo, hi, px, py);
    }
}

/// Filling a polygon leaves every pixel to the left of all its corners, and
/// every pixel to the right of them, as it was.
pub proof fn lemma_fill_keeps_outside_columns(
    c: Canvas,
    vertices: Seq<Vertex>,
    lo: int,
    hi: int,
    px: int,
    py: int,
)
    requires
        c.wf(),
        within_columns(vertices, lo, hi),
        c.in_bounds(px, py),
        px < lo || px > hi,
    ensures
        fill(c, vertices).at(px, py) == c.at(px, py),
{
    if vertices.len() >= MIN_POLYGON_VERTICES {
        let top = min_y(vertices, vertices.len());
        let bottom = max_y(vertices, vertices.len());
        lemma_fill_rows_within(c, vertices, top, (bottom - top + 1) as nat, lo, hi, px, py);
    }
}

/// The corners of the rectangle with the given sides, in the order top
/// left, top right, bottom right, bottom left.
pub open spec fn rectangle(left: i32, top: i32, right: i32, bottom: i32) -> Seq<Vertex> {
    seq![
        Vertex { x: left, y: top },
        Vertex { x: right, y: top },
        Vertex { x: right, y: bottom },
        Vertex { x: left, y: bottom },
    ]
}

/// A scanline from the top side of a rectangle down to just above its
/// bottom side meets the left and the right side; any other scanline meets
/// nothing.
pub proof fn lemma_rectangle_crossings(left: i32, top: i32, right: i32, bottom: i32, y: int)
    requires
        left <= right,
        top <= bottom,
    ensures
        sorted_crossings(rectangle(left, top, right, bottom), y) == if top <= y < bottom {
            seq![left as int, right as int]
        } else {
            Seq::<int>::empty()
        },
{
    let v = rectangle(left, top, right, bottom);
    reveal_with_fuel(crossings, 5);
    let raw = crossings(v, y, 4);
    let sorted = raw.sort_by(ascending());
    assert(total_ordering(ascending()));
    raw.lemma_sort_by_ensures(ascending());
    if top <= y < bottom {
        lemma_intersection_between(v[1], v[2], y);
        lemma_intersection_between(v[3], v[0], y);
        let none = Seq::<int>::empty();
        let want = seq![left as int, right as int];
        assert(raw =~= none.push(right as int).push(left as int));
        assert(want =~= none.push(left as int).push(right as int));
        to_multiset_build(none, right as int);
        to_multiset_build(none.push(right as int), left as int);
        to_multiset_build(none, left as int);
        to_multiset_build(none.push(left as int), right as int);
        assert(raw.to_multiset() =~= want.to_multiset());
        lemma_sorted_unique(want, sorted, ascending());
    } else {
        assert(raw =~= Seq::<int>::empty());
        raw.to_multiset_ensures();
        sorted.to_multiset_ensures();
        assert(sorted =~= Seq::<int>::empty());
    }
}

/// Filling the topmost `rows` rows of a rectangle paints them from the left
/// side to the right side, the row of the bottom side excepted, and leaves
/// every other pixel as it was.
pub proof fn lemma_rectangle_rows(
    c: Canvas,
    left: i32,
    top: i32,
    right: i32,
    bottom: i32,
    rows: nat,
    px: int,
    py: int,
)
    requires
        c.wf(),
        left <= right,
        top <= bottom,
        c.in_bounds(px, py),
    ensures
        c.fill_rows(rectangle(left, top, right, bottom), top as int, rows).wf(),
        c.fill_rows(rectangle(left, top, right, bottom), top as int, rows).painted_from(c),
        c.fill_rows(rectangle(left, top, right, bottom), top as int, rows).at(px, py) == if top
            <= py < top + rows && py < bottom && left <= px <= right {
            c.current_color
        } else {
            c.at(px, py)
        },
    decreases rows,
{
    let v = rectangle(left, top, right, bottom);
    if rows > 0 {
        let before = c.fill_rows(v, top as int, (rows - 1) as nat);
        let y = top + rows - 1;
        let xs = sorted_crossings(v, y);
        lemma_rectangle_rows(c, left, top, right, bottom, (rows - 1) as nat, px, py);
        lemma_rectangle_crossings(left, top, right, bottom, y);
        reveal_with_fuel(Canvas::fill_pairs, 2);
        if y < bottom {
            assert(before.fill_row(v, y) == before.fill_span(y, left as int, right as int));
            lemma_fill_span_at(before, y, left as int, right as int, px, py);
            lemma_painted_from_trans(c, before, before.fill_row(v, y));
        } else {
            assert(before.fill_row(v, y) == before);
        }
    }
}

/// Filling an axis-aligned rectangle paints the pixels from its left side to
/// its right side in every row from its top side down to just above its
/// bottom side, and leaves every other pixel as it was. The row of the
/// bottom side is left to the outline: no edge goes on below it.
pub proof fn lemma_fill_rectangle(
    c: Canvas,
    left: i32,
    top: i32,
    right: i32,
    bottom: i32,
    px: int,
    py: int,
)
    requires
        c.wf(),
        left <= right,
        top <= bottom,
        c.in_bounds(px, py),
    ensures
        fill(c, rectangle(left, top, right, bottom)).at(px, py) == if top <= py < bottom && left
            <= px <= right {
            c.current_color
        } else {
            c.at(px, py)
        },
{
    let v = rectangle(left, top, right, bottom);
    reveal_with_fuel(min_y, 5);
    reveal_with_fuel(max_y, 5);
    assert(min_y(v, 4) == top);
    assert(max_y(v, 4) == bottom);
    lemma_rectangle_rows(c, left, top, right, bottom, (bottom - top + 1) as nat, px, py);
}

/// Tells whether the scanline `y` crosses the edge from `start` to `end`.
pub fn edge_crosses(start: Vertex, end: Vertex, y: i64) -> (r: bool)
    ensures
        r == crosses(start, end, y as int),
{
    (start.y as i64 <= y && end.y as i64 > y) || (end.y as i64 <= y && start.y as i64 > y)
}

/// The x, rounded to the nearest pixel, at which the scanline `y` meets the
/// edge from `start` to `end`.
pub fn edge_intersection(start: Vertex, end: Vertex, y: i64) -> (x: i64)
    requires
        crosses(start, end, y as int),
    ensures
        x == intersection(start, end, y as int),
        start.x <= x <= end.x || end.x <= x <= start.x,
{
    let den: i128 = end.y as i128 - start.y as i128;
    let k: i128 = y as i128 - start.y as i128;
    let run: i128 = end.x as i128 - start.x as i128;
    assert(-0x1_0000_0000_0000_0000 <= start.x * den <= 0x1_0000_0000_0000_0000)
        by (nonlinear_arith)
        requires
            -0x8000_0000 <= start.x <= 0x8000_0000,
            -0x1_0000_0000 <= den <= 0x1_0000_0000,
    ;
    assert(-0x1_0000_0000_0000_0000 <= k * run <= 0x1_0000_0000_0000_0000) by (nonlinear_arith)
        requires
            -0x1_0000_0000 <= k <= 0x1_0000_0000,
            -0x1_0000_0000 <= run <= 0x1_0000_0000,
    ;
    let num: i128 = start.x as i128 * den + k * run;
    let n: i128 = if num < 0 {
        -num
    } else {
        num
    };
    let d: i128 = if den < 0 {
        -den
    } else {
        den
    };
    let m: i128 = (2 * n + d) / (2 * d);
    let x: i128 = if (num < 0) != (den < 0) {
        -m
    } else {
        m
    };
    proof {
        lemma_intersection_between(start, end, y as int);
    }
    x as i64
}

/// Calls `sort` of the standard library on the vector. As integers, the
/// elements afterwards stand in ascending order and are a rearrangement of
/// the elements before.
#[verifier::external_body]
fn sort_ascending(xs: &mut Vec<i64>)
    ensures
        sorted_by(final(xs)@.map_values(|v: i64| v as int), ascending()),
        final(xs)@.map_values(|v: i64| v as int).to_multiset() == old(xs)@.map_values(
            |v: i64| v as int,
        ).to_multiset(),
{
    xs.sort();
}

/// Fills the pixels `(from, y)` to `(to, y)`, both included, in the current
/// color. What lies outside the canvas is skipped.
pub fn fill_span(framebuffer: &mut Framebuffer, y: i64, from: i64, to: i64)
    requires
        old(framebuffer).wf(),
    ensures
        final(framebuffer).wf(),
        final(framebuffer)@ == old(framebuffer)@.fill_span(y as int, from as int, to as int),
{
    if from > to {
        assert(framebuffer@.pixels =~= framebuffer@.fill_span(
            y as int,
            from as int,
            to as int,
        ).pixels);
        return ;
    }
    let mut x: i64 = from;
    assert(framebuffer@.pixels =~= framebuffer@.fill_span(y as int, from as int, from - 1).pixels);
    loop
        invariant_except_break
            framebuffer@ == old(framebuffer)@.fill_span(y as int, from as int, x - 1),
        invariant
            from <= x <= to,
            framebuffer.wf(),
        ensures
            framebuffer@ == old(framebuffer)@.fill_span(y as int, from as int, to as int),
        decreases to - x,
    {
        framebuffer.plot(x, y);
        proof {
            let c = old(framebuffer)@;
            if c.in_bounds(x as int, y as int) {
                crate::framebuffer::lemma_index_in_range(c, x as int, y as int);
            }
            assert(framebuffer@.pixels =~= c.fill_span(y as int, from as int, x as int).pixels);
        }
        if x == to {
            break ;
        }
        x += 1;
    }
}

/// Collects the intersections of scanline `y` with the edges of the
/// polygon, in the order of the edges.
pub fn scanline_crossings(vertices: &[Vertex], y: i64) -> (xs: Vec<i64>)
    requires
        vertices@.len() >= 1,
    ensures
        xs@.map_values(|v: i64| v as int) == crossings(vertices@, y as int, vertices@.len()),
{
    let n = vertices.len();
    let mut xs: Vec<i64> = Vec::new();
    let mut i: usize = 0;
    assert(xs@.map_values(|v: i64| v as int) =~= crossings(vertices@, y as int, 0));
    while i < n
        invariant
            i <= n,
            n == vertices@.len(),
            xs@.map_values(|v: i64| v as int) == crossings(vertices@, y as int, i as nat),
        decreases n - i,
    {
        let start = vertices[i];
        let end = if i == n - 1 {
            vertices[0]
        } else {
            vertices[i + 1]
        };
        let ghost before = xs@;
        if edge_crosses(start, end, y) {
            let x = edge_intersection(start, end, y);
            xs.push(x);
            assert(xs@.map_values(|v: i64| v as int) =~= before.map_values(|v: i64| v as int).push(
                x as int,
            ));
        }
        i += 1;
    }
    xs
}

/// The elements of `xs` as integers, in ascending order.
pub open spec fn sorted_ints(xs: Seq<i64>) -> Seq<int> {
    xs.map_values(|v: i64| v as int).sort_by(ascending())
}

/// Fills the spans of row `y` that the intersections bound: sorts them and
/// fills from the first to the second, from the third to the fourth, and so
/// on. One left over is dropped.
pub fn fill_crossings(framebuffer: &mut Framebuffer, y: i64, intersections: Vec<i64>)
    requires
        old(framebuffer).wf(),
    ensures
        final(framebuffer).wf(),
        final(framebuffer)@ == old(framebuffer)@.fill_pairs(
            y as int,
            sorted_ints(intersections@),
            sorted_ints(intersections@).len() / 2,
        ),
{
    let mut intersections = intersections;
    let ghost raw = intersections@.map_values(|v: i64| v as int);
    sort_ascending(&mut intersections);
    let ghost xs = intersections@.map_values(|v: i64| v as int);
    proof {
        raw.lemma_sort_by_ensures(ascending());
        assert(total_ordering(ascending()));
        lemma_sorted_unique(xs, raw.sort_by(ascending()), ascending());
    }
    let len = intersections.len();
    let mut i: usize = 0;
    while len - i >= 2
        invariant
            i % 2 == 0,
            i <= len,
            len == intersections@.len(),
            xs == intersections@.map_values(|v: i64| v as int),
            framebuffer.wf(),
            framebuffer@ == old(framebuffer)@.fill_pairs(y as int, xs, (i / 2) as nat),
        decreases len - i,
    {
        let from = intersections[i];
        let to = intersections[i + 1];
        fill_span(framebuffer, y, from, to);
        i += 2;
    }
}

/// Fills row `y` of the polygon: the spans between the intersections of the
/// scanline with the edges.
pub fn fill_scanline(framebuffer: &mut Framebuffer, vertices: &[Vertex], y: i64)
    requires
        old(framebuffer).wf(),
        vertices@.len() >= 1,
    ensures
        final(framebuffer).wf(),
        final(framebuffer)@ == old(framebuffer)@.fill_row(vertices@, y as int),
{
    let intersections = scanline_crossings(vertices, y);
    fill_crossings(framebuffer, y, intersections);
}

/// Fills the inside of the polygon in the current color by the even-odd
/// rule. Fewer than three corners make no polygon: nothing is drawn.
pub fn fill_polygon(framebuffer: &mut Framebuffer, vertices: &[Vertex])
    requires
        old(framebuffer).wf(),
    ensures
        final(framebuffer).wf(),
        final(framebuffer)@ == fill(old(framebuffer)@, vertices@),
{
    if vertices.len() < MIN_POLYGON_VERTICES {
        return ;
    }
    let n = vertices.len();
    let mut top: i64 = vertices[0].y as i64;
    let mut bottom: i64 = vertices[0].y as i64;
    let mut i: usize = 1;
    while i < n
        invariant
            1 <= i <= n,
            n == vertices@.len(),
            top == min_y(vertices@, i as nat),
            bottom == max_y(vertices@, i as nat),
            i32::MIN <= top <= bottom <= i32::MAX,
        decreases n - i,
    {
        let vy = vertices[i].y as i64;
        if vy < top {
            top = vy;
        }
        if vy > bottom {
            bottom = vy;
        }
        i += 1;
    }
    let mut y: i64 = top;
    while y <= bottom
        invariant
            top <= y <= bottom + 1,
            i32::MIN <= top <= bottom <= i32::MAX,
            vertices@.len() >= MIN_POLYGON_VERTICES,
            framebuffer.wf(),
            framebuffer@ == old(framebuffer)@.fill_rows(vertices@, top as int, (y - top) as nat),
        decreases bottom - y + 1,
    {
        fill_scanline(framebuffer, vertices, y);
        y += 1;
    }
}

/// Draws the closed outline of the polygon in the current color. Fewer than
/// three corners make no polygon: nothing is drawn.
pub fn draw_polygon(framebuffer: &mut Framebuffer, vertices: &[Vertex])
    requires
        old(framebuffer).wf(),
    ensures
        final(framebuffer).wf(),
        final(framebuffer)@ == draw_outline(old(framebuffer)@, vertices@),
{
    framebuffer.draw_polygon(vertices);
}

} // verus!
