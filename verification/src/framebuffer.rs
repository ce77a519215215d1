//! The pixel canvas: a row-major buffer of packed `0xRRGGBB` colors together
//! with the background color and the color used for drawing.

use crate::bmp::{bmp_bytes, encode_bmp, lemma_row_major};
use vstd::prelude::*;

verus! {

/// Color every pixel of a fresh canvas has.
pub const DEFAULT_BACKGROUND: u32 = 0x000000;

/// Drawing color of a fresh canvas.
pub const DEFAULT_COLOR: u32 = 0xFFFFFF;

/// Why a canvas could not be created.
#[derive(Debug, Clone, Copy, PartialEq, Eq, Structural)]
pub enum CanvasError {
    /// The width or the height is zero.
    ZeroDimension,
    /// `width * height` pixels cannot be addressed on this machine.
    TooLarge,
}

/// Mathematical model of a canvas. Pixels are stored row by row, the origin
/// is the top-left corner and `y` grows downward.
pub struct Canvas {
    pub width: nat,
    pub height: nat,
    pub pixels: Seq<u32>,
    pub background_color: u32,
    pub current_color: u32,
}

impl Canvas {
    /// A canvas has positive dimensions and exactly one color per pixel.
    pub open spec fn wf(self) -> bool {
        &&& self.width > 0
        &&& self.height > 0
        &&& self.pixels.len() == self.width * self.height
    }

    /// The fresh canvas of the given size: all background, drawing in white.
    pub open spec fn blank(width: nat, height: nat) -> Canvas {
        Canvas {
            width,
            height,
            pixels: Seq::new(width * height, |i: int| DEFAULT_BACKGROUND),
            background_color: DEFAULT_BACKGROUND,
            current_color: DEFAULT_COLOR,
        }
    }

    /// The position `(x, y)` lies on the canvas.
    pub open spec fn in_bounds(self, x: int, y: int) -> bool {
        0 <= x < self.width && 0 <= y < self.height
    }

    /// Position of pixel `(x, y)` in the row-major buffer.
    pub open spec fn index(self, x: int, y: int) -> int {
        y * self.width + x
    }

    /// Color of the pixel `(x, y)`.
    pub open spec fn at(self, x: int, y: int) -> u32 {
        self.pixels[self.index(x, y)]
    }

    /// The canvas with the pixel `(x, y)` in the current color; a position
    /// outside the canvas changes nothing.
    pub open spec fn plot(self, x: int, y: int) -> Canvas {
        if self.in_bounds(x, y) {
            Canvas { pixels: self.pixels.update(self.index(x, y), self.current_color), ..self }
        } else {
            self
        }
    }

    /// The canvas with the pixels `(from, y)` to `(to, y)`, both included,
    /// in the current color, as far as they lie on the canvas.
    pub open spec fn fill_span(self, y: int, from: int, to: int) -> Canvas {
        Canvas {
            pixels: Seq::new(
                self.pixels.len(),
                |i: int|
                    if 0 <= y < self.height && self.index(from, y) <= i <= self.index(to, y)
                        && self.index(0, y) <= i < self.index(self.width as int, y) {
                        self.current_color
                    } else {
                        self.pixels[i]
                    },
            ),
            ..self
        }
    }

    /// What drawing may do to a canvas: the size and the two colors stay,
    /// and each pixel either stays or takes the current color.
    pub open spec fn painted_from(self, before: Canvas) -> bool {
        &&& self.width == before.width
        &&& self.height == before.height
        &&& self.background_color == before.background_color
        &&& self.current_color == before.current_color
        &&& self.pixels.len() == before.pixels.len()
        &&& forall|i: int|
            0 <= i < before.pixels.len() ==> #[trigger] self.pixels[i] == before.pixels[i]
                || self.pixels[i] == before.current_color
    }

    /// The canvas with every pixel in the background color.
    pub open spec fn cleared(self) -> Canvas {
        Canvas {
            pixels: Seq::new(self.pixels.len(), |i: int| self.background_color),
            ..self
        }
    }
}

/// A position inside the canvas has its own slot in the buffer.
pub proof fn lemma_index_in_range(c: Canvas, x: int, y: int)
    requires
        c.wf(),
        c.in_bounds(x, y),
    ensures
        0 <= y * c.width <= c.index(x, y) < c.pixels.len(),
{
    lemma_row_major(c.width as int, c.height as int, x, y);
}

/// Two in-bounds positions share a slot only if they are the same position.
pub proof fn lemma_index_injective(c: Canvas, x1: int, y1: int, x2: int, y2: int)
    requires
        c.wf(),
        c.in_bounds(x1, y1),
        c.in_bounds(x2, y2),
        c.index(x1, y1) == c.index(x2, y2),
    ensures
        x1 == x2,
        y1 == y2,
{
    let w = c.width as int;
    if y1 < y2 {
        assert(y1 * w + w <= y2 * w) by (nonlinear_arith)
            requires
                y1 + 1 <= y2,
                w > 0,
        ;
    } else if y2 < y1 {
        assert(y2 * w + w <= y1 * w) by (nonlinear_arith)
            requires
                y2 + 1 <= y1,
                w > 0,
        ;
    }
}

/// A pixel painted on the canvas reads back as the current color.
pub proof fn lemma_plot_then_read(c: Canvas, x: int, y: int)
    requires
        c.wf(),
        c.in_bounds(x, y),
    ensures
        c.plot(x, y).wf(),
        c.plot(x, y).at(x, y) == c.current_color,
{
    lemma_index_in_range(c, x, y);
}

/// Painting one pixel leaves every other pixel of the canvas as it was.
pub proof fn lemma_plot_keeps_others(c: Canvas, x: int, y: int, px: int, py: int)
    requires
        c.wf(),
        c.in_bounds(px, py),
        px != x || py != y,
    ensures
        c.plot(x, y).at(px, py) == c.at(px, py),
{
    lemma_index_in_range(c, px, py);
    if c.in_bounds(x, y) {
        lemma_index_in_range(c, x, y);
        if c.index(x, y) == c.index(px, py) {
            lemma_index_injective(c, x, y, px, py);
        }
    }
}

/// Painting at a position outside the canvas, negative or too large,
/// changes nothing.
pub proof fn lemma_plot_outside(c: Canvas, x: int, y: int)
    requires
        x < 0 || y < 0 || x >= c.width || y >= c.height,
    ensures
        c.plot(x, y) == c,
{
}

/// After clearing, every pixel of the canvas has the background color.
pub proof fn lemma_cleared_is_background(c: Canvas, x: int, y: int)
    requires
        c.wf(),
        c.in_bounds(x, y),
    ensures
        c.cleared().wf(),
        c.cleared().at(x, y) == c.background_color,
{
    lemma_index_in_range(c, x, y);
}

/// Clearing twice gives the same canvas as clearing once.
pub proof fn lemma_clear_idempotent(c: Canvas)
    ensures
        c.cleared().cleared() == c.cleared(),
{
    assert(c.cleared().cleared().pixels =~= c.cleared().pixels);
}

/// Painting after painting is painting.
pub proof fn lemma_painted_from_trans(a: Canvas, b: Canvas, c: Canvas)
    requires
        c.painted_from(b),
        b.painted_from(a),
    ensures
        c.painted_from(a),
{
    assert forall|i: int| 0 <= i < a.pixels.len() implies #[trigger] c.pixels[i] == a.pixels[i]
        || c.pixels[i] == a.current_color by {
        assert(b.pixels[i] == a.pixels[i] || b.pixels[i] == a.current_color);
    }
}

/// Painting one pixel only paints.
pub proof fn lemma_plot_paints(c: Canvas, x: int, y: int)
    requires
        c.wf(),
    ensures
        c.plot(x, y).wf(),
        c.plot(x, y).painted_from(c),
{
    if c.in_bounds(x, y) {
        lemma_index_in_range(c, x, y);
    }
}

/// A filled span reads as the current color from `from` to `to` in row `y`,
/// and every other pixel of the canvas is as it was.
pub proof fn lemma_fill_span_at(c: Canvas, y: int, from: int, to: int, px: int, py: int)
    requires
        c.wf(),
        c.in_bounds(px, py),
    ensures
        c.fill_span(y, from, to).wf(),
        c.fill_span(y, from, to).painted_from(c),
        c.fill_span(y, from, to).at(px, py) == if py == y && from <= px <= to {
            c.current_color
        } else {
            c.at(px, py)
        },
{
    let w = c.width as int;
    lemma_index_in_range(c, px, py);
    if py < y {
        assert(py * w + w <= y * w) by (nonlinear_arith)
            requires
                py + 1 <= y,
                w > 0,
        ;
    } else if py > y {
        assert(y * w + w <= py * w) by (nonlinear_arith)
            requires
                y + 1 <= py,
                w > 0,
        ;
    }
}

/// Filling a span that an adjoining or contained pixel has been painted
/// beside is filling the span that holds both.
pub proof fn lemma_fill_span_joins(c: Canvas, y: int, x: int, from: int, to: int)
    requires
        c.wf(),
        from - 1 <= x <= to + 1,
    ensures
        c.plot(x, y).fill_span(y, from, to) == c.fill_span(
            y,
            if x < from {
                x
            } else {
                from
            },
            if x > to {
                x
            } else {
                to
            },
        ),
{
    let lo = if x < from {
        x
    } else {
        from
    };
    let hi = if x > to {
        x
    } else {
        to
    };
    if c.in_bounds(x, y) {
        lemma_index_in_range(c, x, y);
    }
    assert(c.plot(x, y).fill_span(y, from, to).pixels =~= c.fill_span(y, lo, hi).pixels);
}

/// A span that lies in no row of the canvas, beside the canvas or between no
/// two pixels changes nothing.
pub proof fn lemma_fill_span_outside(c: Canvas, y: int, from: int, to: int)
    requires
        c.wf(),
        y < 0 || y >= c.height || to < 0 || from >= c.width || from > to,
    ensures
        c.fill_span(y, from, to) == c,
{
    assert(c.fill_span(y, from, to).pixels =~= c.pixels);
}

/// Filling a span only paints.
pub proof fn lemma_fill_span_paints(c: Canvas, y: int, from: int, to: int)
    requires
        c.wf(),
    ensures
        c.fill_span(y, from, to).wf(),
        c.fill_span(y, from, to).painted_from(c),
{
}

/// A canvas in memory: `width * height` pixels, row by row from the top,
/// with the color that `clear` paints and the color that drawing paints.
pub struct Framebuffer {
    pub width: usize,
    pub height: usize,
    pub buffer: Vec<u32>,
    pub background_color: u32,
    pub current_color: u32,
}

impl View for Framebuffer {
    type V = Canvas;

    open spec fn view(&self) -> Canvas {
        Canvas {
            width: self.width as nat,
            height: self.height as nat,
            pixels: self.buffer@,
            background_color: self.background_color,
            current_color: self.current_color,
        }
    }
}

impl Framebuffer {
    /// The buffer holds exactly `width * height` pixels and neither
    /// dimension is zero.
    pub open spec fn wf(&self) -> bool {
        self@.wf()
    }

    /// Creates a canvas of `width` by `height` pixels, all black, that draws
    /// in white. A zero dimension and a pixel count beyond `usize` are
    /// rejected.
    pub fn new(width: usize, height: usize) -> (r: Result<Framebuffer, CanvasError>)
        ensures
            r is Ok <==> width > 0 && height > 0 && width * height <= usize::MAX,
            r is Ok ==> r->Ok_0.wf() && r->Ok_0@ == Canvas::blank(width as nat, height as nat),
            r == Err::<Framebuffer, CanvasError>(CanvasError::ZeroDimension) <==> width == 0
                || height == 0,
            r == Err::<Framebuffer, CanvasError>(CanvasError::TooLarge) <==> width > 0 && height > 0
                && width * height > usize::MAX,
    {
        if width == 0 || height == 0 {
            return Err(CanvasError::ZeroDimension);
        }
        match width.checked_mul(height) {
            Some(buffer_size) => {
                let buffer = vec![DEFAULT_BACKGROUND; buffer_size];
                assert(buffer@ =~= Seq::new((width * height) as nat, |i: int| DEFAULT_BACKGROUND));
                Ok(
                    Framebuffer {
                        width,
                        height,
                        buffer,
                        background_color: DEFAULT_BACKGROUND,
                        current_color: DEFAULT_COLOR,
                    },
                )
            },
            None => Err(CanvasError::TooLarge),
        }
    }

    /// Repaints every pixel in the background color.
    pub fn clear(&mut self)
        requires
            old(self).wf(),
        ensures
            final(self).wf(),
            final(self)@ == old(self)@.cleared(),
    {
        let n = self.buffer.len();
        let mut i: usize = 0;
        while i < n
            invariant
                i <= n,
                n == self.buffer.len(),
                self.width == old(self).width,
                self.height == old(self).height,
                self.background_color == old(self).background_color,
                self.current_color == old(self).current_color,
                self.buffer.len() == old(self).buffer.len(),
                forall|j: int| 0 <= j < i ==> self.buffer@[j] == self.background_color,
            decreases n - i,
        {
            self.buffer.set(i, self.background_color);
            i += 1;
        }
        assert(self.buffer@ =~= old(self)@.cleared().pixels);
    }

    /// Paints the pixel `(x, y)` in the current color. A position outside
    /// the canvas is ignored.
    pub fn point(&mut self, x: usize, y: usize)
        requires
            old(self).wf(),
        ensures
            final(self).wf(),
            final(self)@ == old(self)@.plot(x as int, y as int),
    {
        if x < self.width && y < self.height {
            proof {
                lemma_index_in_range(self@, x as int, y as int);
                assert(y * self.width + x < self.buffer.len());
            }
            let index = y * self.width + x;
            self.buffer.set(index, self.current_color);
        }
    }

    /// Paints the pixel at the signed position `(x, y)` in the current
    /// color. A negative coordinate, like any other position outside the
    /// canvas, is ignored.
    pub fn plot(&mut self, x: i64, y: i64)
        requires
            old(self).wf(),
        ensures
            final(self).wf(),
            final(self)@ == old(self)@.plot(x as int, y as int),
    {
        if x >= 0 && y >= 0 && x as u64 <= usize::MAX as u64 && y as u64 <= usize::MAX as u64 {
            self.point(x as usize, y as usize);
        }
    }

    /// The color of the pixel `(x, y)`, or `None` outside the canvas.
    pub fn get_color(&self, x: usize, y: usize) -> (r: Option<u32>)
        requires
            self.wf(),
        ensures
            r == if self@.in_bounds(x as int, y as int) {
                Some(self@.at(x as int, y as int))
            } else {
                None
            },
    {
        if x < self.width && y < self.height {
            proof {
                lemma_index_in_range(self@, x as int, y as int);
                assert(y * self.width + x < self.buffer.len());
            }
            let index = y * self.width + x;
            Some(self.buffer[index])
        } else {
            None
        }
    }

    /// The canvas as the bytes of a bitmap file.
    pub fn render_buffer(&self) -> (bytes: Vec<u8>)
        requires
            self.wf(),
        ensures
            bytes@ == bmp_bytes(self@.pixels, self@.width, self@.height),
    {
        encode_bmp(self.buffer.as_slice(), self.width, self.height)
    }

    /// Chooses the color that the next `clear` paints. No pixel changes.
    pub fn set_background_color(&mut self, color: u32)
        ensures
            final(self)@ == (Canvas { background_color: color, ..old(self)@ }),
    {
        self.background_color = color;
    }

    /// Chooses the color that drawing paints from now on. No pixel changes.
    pub fn set_current_color(&mut self, color: u32)
        ensures
            final(self)@ == (Canvas { current_color: color, ..old(self)@ }),
    {
        self.current_color = color;
    }
}

} // verus!
