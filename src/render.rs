//! Rasterization of bodies into a row-major RGBA frame buffer.
use vstd::prelude::*;

verus! {

/// One pixel's colour: red, green, blue and alpha bytes.
#[derive(Clone, Copy, Debug, PartialEq, Eq, Structural)]
pub struct RGBA(pub u8, pub u8, pub u8, pub u8);

/// A frame buffer: `values` holds 4 bytes per pixel, row after row, and
/// `size` is the number of pixels in a row.
pub struct Frame {
    pub values: Vec<u8>,
    pub size: usize,
}

/// Byte offset of pixel `(x, y)` in a buffer whose rows are `size` pixels wide.
pub open spec fn pixel_offset(size: int, x: int, y: int) -> int {
    4 * x + 4 * size * y
}

/// The buffer after writing colour `c` at pixel `(x, y)`. The write happens only
/// when both coordinates are pixel coordinates (non-negative, within `usize`) and
/// all four bytes fall inside the buffer; an `x` beyond the row width therefore
/// lands in a following row.
pub open spec fn paint(buf: Seq<u8>, size: int, x: int, y: int, c: RGBA) -> Seq<u8> {
    let o = pixel_offset(size, x, y);
    if 0 <= x <= usize::MAX && 0 <= y <= usize::MAX && o + 3 < buf.len() {
        buf.update(o, c.0).update(o + 1, c.1).update(o + 2, c.2).update(o + 3, c.3)
    } else {
        buf
    }
}

/// The buffer after writing colour `c` at the eight points that mirror the octant
/// offset `(x, y)` around the centre `(xc, yc)`, in drawing order.
pub open spec fn paint_octants(buf: Seq<u8>, size: int, xc: int, yc: int, x: int, y: int, c: RGBA) -> Seq<u8> {
    let b1 = paint(buf, size, xc + x, yc + y, c);
    let b2 = paint(b1, size, xc - x, yc + y, c);
    let b3 = paint(b2, size, xc + x, yc - y, c);
    let b4 = paint(b3, size, xc - x, yc - y, c);
    let b5 = paint(b4, size, xc + y, yc + x, c);
    let b6 = paint(b5, size, xc - y, yc + x, c);
    let b7 = paint(b6, size, xc + y, yc - x, c);
    paint(b7, size, xc - y, yc - x, c)
}

/// One step of the midpoint circle algorithm from octant offset `(x, y)` with
/// decision variable `d`: the next offset and decision variable.
pub open spec fn midpoint_next(x: int, y: int, d: int) -> (int, int, int) {
    let x1 = x + 1;
    if d <= 0 {
        (x1, y, d + 4 * x1 + 6)
    } else {
        (x1, y - 1, d + 4 * (x1 - (y - 1)) + 10)
    }
}

/// The octant offsets that the midpoint algorithm visits after `(x, y)`, while
/// `y >= x` holds before each step.
pub open spec fn midpoint_trace(x: int, y: int, d: int) -> Seq<(int, int)>
    decreases (if y >= x { y - x + 1 } else { 0 }),
{
    if y >= x {
        let (x1, y1, d1) = midpoint_next(x, y, d);
        seq![(x1, y1)] + midpoint_trace(x1, y1, d1)
    } else {
        seq![]
    }
}

/// Every octant offset plotted for a circle of radius `r`, in drawing order.
pub open spec fn circle_steps(r: int) -> Seq<(int, int)> {
    seq![(0, r)] + midpoint_trace(0, r, 3 - 2 * r)
}

/// The buffer after plotting, in order, the eight mirrored points of each offset.
pub open spec fn paint_steps(buf: Seq<u8>, size: int, xc: int, yc: int, steps: Seq<(int, int)>, c: RGBA) -> Seq<u8>
    decreases steps.len(),
{
    if steps.len() == 0 {
        buf
    } else {
        let (x, y) = steps.last();
        paint_octants(paint_steps(buf, size, xc, yc, steps.drop_last(), c), size, xc, yc, x, y, c)
    }
}

/// A buffer of `n` pixels, each opaque black.
pub open spec fn opaque_black(n: nat) -> Seq<u8> {
    Seq::new(4 * n, |i: int| if i % 4 == 3 { 255u8 } else { 0u8 })
}

proof fn lemma_paint_len(buf: Seq<u8>, size: int, x: int, y: int, c: RGBA)
    requires
        size >= 0,
    ensures
        paint(buf, size, x, y, c).len() == buf.len(),
{
    if 0 <= x && 0 <= y {
        assert(pixel_offset(size, x, y) >= 0) by (nonlinear_arith)
            requires
                size >= 0,
                x >= 0,
                y >= 0,
        ;
    }
}

proof fn lemma_paint_octants_len(buf: Seq<u8>, size: int, xc: int, yc: int, x: int, y: int, c: RGBA)
    requires
        size >= 0,
    ensures
        paint_octants(buf, size, xc, yc, x, y, c).len() == buf.len(),
{
    let b1 = paint(buf, size, xc + x, yc + y, c);
    let b2 = paint(b1, size, xc - x, yc + y, c);
    let b3 = paint(b2, size, xc + x, yc - y, c);
    let b4 = paint(b3, size, xc - x, yc - y, c);
    let b5 = paint(b4, size, xc + y, yc + x, c);
    let b6 = paint(b5, size, xc - y, yc + x, c);
    let b7 = paint(b6, size, xc + y, yc - x, c);
    lemma_paint_len(buf, size, xc + x, yc + y, c);
    lemma_paint_len(b1, size, xc - x, yc + y, c);
    lemma_paint_len(b2, size, xc + x, yc - y, c);
    lemma_paint_len(b3, size, xc - x, yc - y, c);
    lemma_paint_len(b4, size, xc + y, yc + x, c);
    lemma_paint_len(b5, size, xc - y, yc + x, c);
    lemma_paint_len(b6, size, xc + y, yc - x, c);
    lemma_paint_len(b7, size, xc - y, yc - x, c);
}

/// Plotting never changes the buffer's length.
pub proof fn lemma_paint_steps_len(buf: Seq<u8>, size: int, xc: int, yc: int, steps: Seq<(int, int)>, c: RGBA)
    requires
        size >= 0,
    ensures
        paint_steps(buf, size, xc, yc, steps, c).len() == buf.len(),
    decreases steps.len(),
{
    if steps.len() > 0 {
        let (x, y) = steps.last();
        let prev = paint_steps(buf, size, xc, yc, steps.drop_last(), c);
        lemma_paint_steps_len(buf, size, xc, yc, steps.drop_last(), c);
        lemma_paint_octants_len(prev, size, xc, yc, x, y, c);
    }
}

/// `c + d` as a `usize`, or `None` when it is negative or too large.
fn shifted(c: usize, d: i64) -> (r: Option<usize>)
    requires
        -0xFFFF_FFFF <= d <= 0xFFFF_FFFF,
    ensures
        match r {
            Some(v) => v == c + d,
            None => c + d < 0 || c + d > usize::MAX,
        },
{
    if d >= 0 {
        c.checked_add(d as usize)
    } else {
        c.checked_sub((-d) as usize)
    }
}

impl Frame {
    /// A `width` by `height` frame with every pixel opaque black, ready to draw on.
    pub fn new(width: usize, height: usize) -> (r: Frame)
        requires
            4 * width * height <= usize::MAX,
        ensures
            r.size == width,
            r.values@ == opaque_black((width * height) as nat),
    {
        assert(0 <= width * height && 4 * (width * height) == 4 * width * height) by (nonlinear_arith)
            requires
                width >= 0,
                height >= 0,
        ;
        let pixels: usize = width * height;
        let mut values: Vec<u8> = Vec::new();
        let mut k: usize = 0;
        while k < pixels
            invariant
                k <= pixels,
                4 * pixels <= usize::MAX,
                values@ == opaque_black(k as nat),
            decreases pixels - k,
        {
            values.push(0);
            values.push(0);
            values.push(0);
            values.push(255);
            k += 1;
            assert(values@ =~= opaque_black(k as nat));
        }
        Frame { values, size: width }
    }

    /// The pixel data, for handing to an encoder.
    pub fn values(&self) -> (r: &Vec<u8>)
        ensures
            r == &self.values,
    {
        &self.values
    }

    /// Byte offset of pixel `(x, y)`, or `None` when it does not fit in a `usize`
    /// (and so lies past the end of any buffer).
    fn offset(&self, x: usize, y: usize) -> (r: Option<usize>)
        ensures
            match r {
                Some(o) => o == pixel_offset(self.size as int, x as int, y as int),
                None => pixel_offset(self.size as int, x as int, y as int) > usize::MAX,
            },
    {
        let row = match self.size.checked_mul(y) {
            Some(v) => v,
            None => {
                assert(pixel_offset(self.size as int, x as int, y as int) > usize::MAX) by (nonlinear_arith)
                    requires
                        self.size * y > usize::MAX,
                        x >= 0,
                ;
                return None;
            },
        };
        assert(pixel_offset(self.size as int, x as int, y as int) == 4 * row + 4 * x) by (nonlinear_arith)
            requires
                row == self.size * y,
        ;
        let cell = match row.checked_add(x) {
            Some(v) => v,
            None => {
                return None;
            },
        };
        assert(4 * cell == pixel_offset(self.size as int, x as int, y as int)) by (nonlinear_arith)
            requires
                cell == row + x,
                row == self.size * y,
        ;
        cell.checked_mul(4)
    }

    /// Writes `pixel` at `(x, y)` when its four bytes lie inside the buffer.
    fn set_pixel(&mut self, x: usize, y: usize, pixel: &RGBA)
        ensures
            final(self).size == old(self).size,
            final(self).values@ == paint(old(self).values@, old(self).size as int, x as int, y as int, *pixel),
    {
        match self.offset(x, y) {
            Some(o) => {
                if o < self.values.len() && 3 < self.values.len() - o {
                    self.values.set(o, pixel.0);
                    self.values.set(o + 1, pixel.1);
                    self.values.set(o + 2, pixel.2);
                    self.values.set(o + 3, pixel.3);
                }
            },
            None => {
                assert(self.values@.len() == self.values.len());
            },
        }
    }

    /// Writes `pixel` at `(xc + dx, yc + dy)` when that point is a pixel of the buffer.
    fn plot(&mut self, xc: usize, dx: i64, yc: usize, dy: i64, pixel: &RGBA)
        requires
            -0xFFFF_FFFF <= dx <= 0xFFFF_FFFF,
            -0xFFFF_FFFF <= dy <= 0xFFFF_FFFF,
        ensures
            final(self).size == old(self).size,
            final(self).values@ == paint(old(self).values@, old(self).size as int, xc + dx, yc + dy, *pixel),
    {
        match (shifted(xc, dx), shifted(yc, dy)) {
            (Some(px), Some(py)) => self.set_pixel(px, py, pixel),
            _ => {
                let ghost x = xc + dx;
                let ghost y = yc + dy;
                assert(self.values@.len() == self.values.len());
            },
        }
    }

    /// Plots the eight points that mirror the octant offset `(x, y)` around `(xc, yc)`.
    fn draw_circle_int(&mut self, xc: usize, yc: usize, x: i64, y: i64, pixel: &RGBA)
        requires
            -0xFFFF_FFFF <= x <= 0xFFFF_FFFF,
            -0xFFFF_FFFF <= y <= 0xFFFF_FFFF,
        ensures
            final(self).size == old(self).size,
            final(self).values@ == paint_octants(old(self).values@, old(self).size as int, xc as int, yc as int, x as int, y as int, *pixel),
    {
        self.plot(xc, x, yc, y, pixel);
        self.plot(xc, -x, yc, y, pixel);
        self.plot(xc, x, yc, -y, pixel);
        self.plot(xc, -x, yc, -y, pixel);
        self.plot(xc, y, yc, x, pixel);
        self.plot(xc, -y, yc, x, pixel);
        self.plot(xc, y, yc, -x, pixel);
        self.plot(xc, -y, yc, -x, pixel);
    }

    /// Draws the outline of a circle of the given radius around `(xc, yc)` with the
    /// midpoint algorithm, plotting the eight mirrored points of each octant offset.
    fn draw_circle(&mut self, xc: usize, yc: usize, radius: i32, pixel: &RGBA)
        ensures
            final(self).size == old(self).size,
            final(self).values@ == paint_steps(old(self).values@, old(self).size as int, xc as int, yc as int, circle_steps(radius as int), *pixel),
    {
        let r: i64 = radius as i64;
        let ghost big: int = if r >= 0 { r as int } else { -r };
        let mut x: i64 = 0;
        let mut y: i64 = r;
        let mut d: i64 = 3 - 2 * r;
        self.draw_circle_int(xc, yc, x, y, pixel);
        let ghost mut done: Seq<(int, int)> = seq![(0int, r as int)];
        assert(done.drop_last() =~= Seq::<(int, int)>::empty());
        assert(paint_steps(old(self).values@, self.size as int, xc as int, yc as int, Seq::empty(), *pixel) == old(self).values@);
        while y >= x
            invariant
                self.size == old(self).size,
                0 <= big <= 0x8000_0000,
                0 <= x <= big + 1,
                -big - 1 <= y <= big,
                x == 0 || y >= x - 2,
                -4 * big - 20 <= d <= 4 * big + 20 + 18 * x,
                circle_steps(radius as int) == done + midpoint_trace(x as int, y as int, d as int),
                self.values@ == paint_steps(old(self).values@, self.size as int, xc as int, yc as int, done, *pixel),
            decreases y - x + 2,
        {
            let ghost p = midpoint_next(x as int, y as int, d as int);
            x += 1;
            if d <= 0 {
                d = d + (4 * x) + 6;
            } else {
                y -= 1;
                d = d + 4 * (x - y) + 10;
            }
            self.draw_circle_int(xc, yc, x, y, pixel);
            proof {
                let step = (x as int, y as int);
                let rest = midpoint_trace(x as int, y as int, d as int);
                assert(p == (x as int, y as int, d as int));
                assert(done + (seq![step] + rest) =~= done.push(step) + rest);
                assert(done.push(step).drop_last() =~= done);
                done = done.push(step);
            }
        }
        assert(done + midpoint_trace(x as int, y as int, d as int) =~= done);
    }

    /// Draws a body of the given radius centred at `(xc, yc)` as an opaque white
    /// circle outline.
    pub fn render(&mut self, xc: usize, yc: usize, radius: i32)
        ensures
            final(self).size == old(self).size,
            final(self).values@.len() == old(self).values@.len(),
            final(self).values@ == paint_steps(old(self).values@, old(self).size as int, xc as int, yc as int, circle_steps(radius as int), RGBA(255, 255, 255, 255)),
    {
        self.draw_circle(xc, yc, radius, &RGBA(255, 255, 255, 255));
        proof {
            lemma_paint_steps_len(old(self).values@, old(self).size as int, xc as int, yc as int, circle_steps(radius as int), RGBA(255, 255, 255, 255));
        }
    }
}

} // verus!
