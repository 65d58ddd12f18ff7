//! Raw pixel storage for one frame: an RGBA, row-major byte buffer with fixed
//! dimensions.

use vstd::prelude::*;

verus! {

/// A solid RGBA color, one byte per channel.
#[derive(Clone, Copy, Debug, PartialEq, Eq, Structural)]
pub struct Rgba {
    pub red: u8,
    pub green: u8,
    pub blue: u8,
    pub alpha: u8,
}

impl Rgba {
    /// The channel of this color at position `c` in RGBA byte order.
    pub open spec fn spec_channel(self, c: int) -> u8 {
        if c == 0 {
            self.red
        } else if c == 1 {
            self.green
        } else if c == 2 {
            self.blue
        } else {
            self.alpha
        }
    }

    /// A fully transparent pixel, the background of a fresh surface.
    pub fn transparent() -> (r: Rgba)
        ensures
            r == (Rgba { red: 0, green: 0, blue: 0, alpha: 0 }),
    {
        Rgba { red: 0, green: 0, blue: 0, alpha: 0 }
    }
}

/// The mathematical model of a bitmap: its dimensions and the flat RGBA byte
/// sequence, row-major, four bytes per pixel.
#[verifier::ext_equal]
pub struct BitmapV {
    pub width: nat,
    pub height: nat,
    pub pixels: Seq<u8>,
}

/// Position of channel `c` of the pixel at column `x`, row `y` inside the flat
/// byte sequence of a bitmap `width` pixels wide.
pub open spec fn pixel_index(width: int, x: int, y: int, c: int) -> int {
    (y * width + x) * 4 + c
}

impl BitmapV {
    /// Validity: the byte count matches the dimensions, the dimensions are
    /// nonzero, and the buffer together with one extra byte per row fits in a
    /// machine word (so that encoding scanlines cannot overflow an index).
    pub open spec fn wf(self) -> bool {
        &&& self.pixels.len() == self.width * self.height * 4
        &&& 1 <= self.width
        &&& 1 <= self.height
        &&& self.width * self.height * 4 + self.height <= usize::MAX
    }

    /// Channel `c` of the pixel at column `x`, row `y`.
    pub open spec fn channel_at(self, x: int, y: int, c: int) -> u8 {
        self.pixels[pixel_index(self.width as int, x, y, c)]
    }

    /// The bitmap of the given dimensions with every byte equal to the
    /// channels of `color`, repeated pixel by pixel.
    pub open spec fn filled_spec(width: nat, height: nat, color: Rgba) -> BitmapV {
        BitmapV {
            width,
            height,
            pixels: Seq::new(width * height * 4, |i: int| color.spec_channel(i % 4)),
        }
    }
}

/// Inside a well-formed bitmap, every in-range pixel coordinate maps to an
/// in-range byte position, and the four channels of distinct pixels never
/// collide.
pub proof fn lemma_pixel_index_bounds(width: int, height: int, x: int, y: int, c: int)
    requires
        0 <= x < width,
        0 <= y < height,
        0 <= c < 4,
    ensures
        0 <= pixel_index(width, x, y, c) < width * height * 4,
        pixel_index(width, x, y, c) % 4 == c,
        (pixel_index(width, x, y, c) / 4) % width == x,
        (pixel_index(width, x, y, c) / 4) / width == y,
{
    let p = y * width + x;
    assert(y * width + width <= height * width) by (nonlinear_arith)
        requires
            0 <= y < height,
            1 <= width,
    ;
    assert(0 <= p && p < width * height);
    assert(0 <= p * 4 + c && p * 4 + c < width * height * 4) by (nonlinear_arith)
        requires
            0 <= p < width * height,
            0 <= c < 4,
    ;
    assert((p * 4 + c) % 4 == c && (p * 4 + c) / 4 == p) by (nonlinear_arith)
        requires
            0 <= p,
            0 <= c < 4,
    ;
    assert(p % width == x && p / width == y) by (nonlinear_arith)
        requires
            0 <= x < width,
            0 <= y,
            p == y * width + x,
    ;
}

/// Every in-range byte position decomposes into the coordinates and channel
/// of exactly one pixel.
pub proof fn lemma_pixel_index_decompose(width: int, height: int, i: int)
    requires
        1 <= width,
        1 <= height,
        0 <= i < width * height * 4,
    ensures
        0 <= (i / 4) % width < width,
        0 <= (i / 4) / width < height,
        pixel_index(width, (i / 4) % width, (i / 4) / width, i % 4) == i,
{
    let p = i / 4;
    let c = i % 4;
    assert(0 <= p && p < width * height && 0 <= c < 4 && p * 4 + c == i) by (nonlinear_arith)
        requires
            0 <= i < width * height * 4,
            p == i / 4,
            c == i % 4,
    ;
    let x = p % width;
    let y = p / width;
    assert(0 <= x < width && 0 <= y < height && y * width + x == p) by (nonlinear_arith)
        requires
            1 <= width,
            1 <= height,
            0 <= p < width * height,
            x == p % width,
            y == p / width,
    ;
}

/// Raw pixel storage for one frame of the drawing surface.
pub struct BitmapBuffer {
    pub width: u32,
    pub height: u32,
    pub pixels: Vec<u8>,
}

impl View for BitmapBuffer {
    type V = BitmapV;

    open spec fn view(&self) -> BitmapV {
        BitmapV { width: self.width as nat, height: self.height as nat, pixels: self.pixels@ }
    }
}

impl BitmapBuffer {
    /// A buffer of the given dimensions with every pixel set to `color`.
    pub fn filled(width: u32, height: u32, color: Rgba) -> (r: BitmapBuffer)
        requires
            1 <= width,
            1 <= height,
            width * height * 4 + height <= usize::MAX,
        ensures
            r@ == BitmapV::filled_spec(width as nat, height as nat, color),
            r@.wf(),
    {
        let count: usize = (width as usize) * (height as usize);
        let mut pixels: Vec<u8> = Vec::new();
        let mut p: usize = 0;
        while p < count
            invariant
                count == width * height,
                width * height * 4 + height <= usize::MAX,
                p <= count,
                pixels@.len() == p * 4,
                forall|i: int| 0 <= i < pixels@.len() ==> pixels@[i] == color.spec_channel(i % 4),
            decreases count - p,
        {
            pixels.push(color.red);
            pixels.push(color.green);
            pixels.push(color.blue);
            pixels.push(color.alpha);
            p = p + 1;
        }
        let r = BitmapBuffer { width, height, pixels };
        proof {
            assert(r@.pixels =~= BitmapV::filled_spec(width as nat, height as nat, color).pixels);
        }
        r
    }

    /// A fresh surface: every pixel transparent.
    pub fn new(width: u32, height: u32) -> (r: BitmapBuffer)
        requires
            1 <= width,
            1 <= height,
            width * height * 4 + height <= usize::MAX,
        ensures
            r@ == BitmapV::filled_spec(
                width as nat,
                height as nat,
                Rgba { red: 0, green: 0, blue: 0, alpha: 0 },
            ),
            r@.wf(),
    {
        BitmapBuffer::filled(width, height, Rgba::transparent())
    }

    pub fn width(&self) -> (r: u32)
        ensures
            r == self@.width,
    {
        self.width
    }

    pub fn height(&self) -> (r: u32)
        ensures
            r == self@.height,
    {
        self.height
    }

    /// The color of the pixel at column `x`, row `y`.
    pub fn pixel_at(&self, x: u32, y: u32) -> (r: Rgba)
        requires
            self@.wf(),
            x < self@.width,
            y < self@.height,
        ensures
            r.red == self@.channel_at(x as int, y as int, 0),
            r.green == self@.channel_at(x as int, y as int, 1),
            r.blue == self@.channel_at(x as int, y as int, 2),
            r.alpha == self@.channel_at(x as int, y as int, 3),
    {
        proof {
            lemma_pixel_index_bounds(self@.width as int, self@.height as int, x as int, y as int, 0);
            assert((y * self@.width + x) * 4 + 3 < self@.width * self@.height * 4)
                by (nonlinear_arith)
                requires
                    0 <= x < self@.width,
                    0 <= y < self@.height,
            ;
        }
        let base: usize = ((y as usize) * (self.width as usize) + (x as usize)) * 4;
        Rgba {
            red: self.pixels[base],
            green: self.pixels[base + 1],
            blue: self.pixels[base + 2],
            alpha: self.pixels[base + 3],
        }
    }

    /// An owned deep copy: later edits of either buffer leave the other one
    /// untouched.
    pub fn duplicate(&self) -> (r: BitmapBuffer)
        ensures
            r@ == self@,
    {
        BitmapBuffer {
            width: self.width,
            height: self.height,
            pixels: vstd::slice::slice_to_vec(self.pixels.as_slice()),
        }
    }
}

/// The models of a sequence of bitmap buffers, element by element.
pub open spec fn bitmap_views(s: Seq<BitmapBuffer>) -> Seq<BitmapV> {
    s.map_values(|b: BitmapBuffer| b@)
}

/// Column of the pixel that byte position `i` belongs to.
pub open spec fn pix_x(width: int, i: int) -> int {
    (i / 4) % width
}

/// Row of the pixel that byte position `i` belongs to.
pub open spec fn pix_y(width: int, i: int) -> int {
    (i / 4) / width
}

/// The bitmap with every pixel whose coordinates satisfy `cov` repainted to
/// `color`, and every other pixel unchanged.
pub open spec fn spec_paint(b: BitmapV, color: Rgba, cov: spec_fn(int, int) -> bool) -> BitmapV {
    BitmapV {
        width: b.width,
        height: b.height,
        pixels: Seq::new(
            b.pixels.len(),
            |i: int|
                if cov(pix_x(b.width as int, i), pix_y(b.width as int, i)) {
                    color.spec_channel(i % 4)
                } else {
                    b.pixels[i]
                },
        ),
    }
}

/// Repainting a region `f` and then a region `g` is one repaint of their
/// union.
pub proof fn lemma_paint_compose(
    b: BitmapV,
    color: Rgba,
    f: spec_fn(int, int) -> bool,
    g: spec_fn(int, int) -> bool,
    h: spec_fn(int, int) -> bool,
)
    requires
        forall|x: int, y: int| #[trigger] h(x, y) <==> f(x, y) || g(x, y),
    ensures
        spec_paint(spec_paint(b, color, f), color, g) == spec_paint(b, color, h),
{
    let lhs = spec_paint(spec_paint(b, color, f), color, g);
    let rhs = spec_paint(b, color, h);
    assert forall|i: int| 0 <= i < b.pixels.len() implies lhs.pixels[i] == rhs.pixels[i] by {
        let x = pix_x(b.width as int, i);
        let y = pix_y(b.width as int, i);
        assert(h(x, y) <==> f(x, y) || g(x, y));
    }
    assert(lhs.pixels =~= rhs.pixels);
    assert(lhs =~= rhs);
}

/// Two coverage predicates that agree on every in-range pixel coordinate
/// paint the same bitmap.
pub proof fn lemma_paint_equiv(
    b: BitmapV,
    color: Rgba,
    f: spec_fn(int, int) -> bool,
    g: spec_fn(int, int) -> bool,
)
    requires
        b.wf(),
        forall|x: int, y: int|
            0 <= x < b.width && 0 <= y < b.height ==> (#[trigger] f(x, y) <==> #[trigger] g(x, y)),
    ensures
        spec_paint(b, color, f) == spec_paint(b, color, g),
{
    let lhs = spec_paint(b, color, f);
    let rhs = spec_paint(b, color, g);
    assert forall|i: int| 0 <= i < b.pixels.len() implies lhs.pixels[i] == rhs.pixels[i] by {
        lemma_pixel_index_decompose(b.width as int, b.height as int, i);
        let x = pix_x(b.width as int, i);
        let y = pix_y(b.width as int, i);
        assert(f(x, y) <==> g(x, y));
    }
    assert(lhs.pixels =~= rhs.pixels);
    assert(lhs =~= rhs);
}

/// Painting keeps the dimensions, the byte count, and well-formedness.
pub proof fn lemma_paint_wf(b: BitmapV, color: Rgba, cov: spec_fn(int, int) -> bool)
    requires
        b.wf(),
    ensures
        spec_paint(b, color, cov).wf(),
        spec_paint(b, color, cov).width == b.width,
        spec_paint(b, color, cov).height == b.height,
{
}

impl BitmapBuffer {
    /// Repaint the single pixel at column `x`, row `y` to `color`.
    pub fn set_pixel(&mut self, x: u32, y: u32, color: Rgba)
        requires
            old(self)@.wf(),
            x < old(self)@.width,
            y < old(self)@.height,
        ensures
            final(self)@ == spec_paint(old(self)@, color, point_cov(x as int, y as int)),
            final(self)@.wf(),
    {
        let ghost b = self@;
        let ghost w = self@.width as int;
        let ghost h = self@.height as int;
        proof {
            lemma_pixel_index_bounds(w, h, x as int, y as int, 0);
            assert((y * w + x) * 4 + 3 < w * h * 4) by (nonlinear_arith)
                requires
                    0 <= x < w,
                    0 <= y < h,
            ;
            assert(y * w + x <= (h - 1) * w + x) by (nonlinear_arith)
                requires
                    0 <= x,
                    0 <= y < h,
                    0 <= w,
            ;
            assert(((h - 1) * w + x) * 4 + 3 < w * h * 4) by (nonlinear_arith)
                requires
                    0 <= x < w,
                    0 < h,
            ;
        }
        let base: usize = ((y as usize) * (self.width as usize) + (x as usize)) * 4;
        self.pixels[base] = color.red;
        self.pixels[base + 1] = color.green;
        self.pixels[base + 2] = color.blue;
        self.pixels[base + 3] = color.alpha;
        proof {
            let after = spec_paint(b, color, point_cov(x as int, y as int));
            assert forall|i: int| 0 <= i < b.pixels.len() implies self@.pixels[i]
                == after.pixels[i] by {
                lemma_pixel_index_decompose(w, h, i);
                let xi = pix_x(w, i);
                let yi = pix_y(w, i);
                if xi == x as int && yi == y as int {
                    lemma_pixel_index_bounds(w, h, xi, yi, i % 4);
                } else {
                    lemma_pixel_index_bounds(w, h, x as int, y as int, 0);
                    lemma_pixel_index_bounds(w, h, x as int, y as int, 1);
                    lemma_pixel_index_bounds(w, h, x as int, y as int, 2);
                    lemma_pixel_index_bounds(w, h, x as int, y as int, 3);
                }
            }
            assert(self@.pixels =~= after.pixels);
            assert(self@ =~= after);
        }
    }
}

/// Coverage of exactly one pixel.
pub open spec fn point_cov(x: int, y: int) -> spec_fn(int, int) -> bool {
    |a: int, b: int| a == x && b == y
}

/// A square brush mark of side `t`, roughly centered on `(px, py)`: it covers
/// the columns from `px - t / 2` on and the rows from `py - t / 2` on, `t` of
/// each.
pub open spec fn stamp_covers(px: int, py: int, t: int, x: int, y: int) -> bool {
    &&& px - t / 2 <= x < px - t / 2 + t
    &&& py - t / 2 <= y < py - t / 2 + t
}

/// The region of one square brush mark.
pub open spec fn stamp_cov(px: int, py: int, t: int) -> spec_fn(int, int) -> bool {
    |x: int, y: int| stamp_covers(px, py, t, x, y)
}

/// The part of one brush mark already painted while sweeping it row by row:
/// every covered pixel strictly above row `yy`, and on row `yy` itself every
/// covered pixel left of column `xx`.
pub open spec fn stamp_done(px: int, py: int, t: int, yy: int, xx: int) -> spec_fn(
    int,
    int,
) -> bool {
    |x: int, y: int| stamp_covers(px, py, t, x, y) && (y < yy || (y == yy && x < xx))
}

/// A coverage predicate that reaches no in-range pixel paints nothing.
pub proof fn lemma_paint_nothing(b: BitmapV, color: Rgba, f: spec_fn(int, int) -> bool)
    requires
        b.wf(),
        forall|x: int, y: int|
            0 <= x < b.width && 0 <= y < b.height ==> !(#[trigger] f(x, y)),
    ensures
        spec_paint(b, color, f) == b,
{
    let lhs = spec_paint(b, color, f);
    assert forall|i: int| 0 <= i < b.pixels.len() implies lhs.pixels[i] == b.pixels[i] by {
        lemma_pixel_index_decompose(b.width as int, b.height as int, i);
        assert(!f(pix_x(b.width as int, i), pix_y(b.width as int, i)));
    }
    assert(lhs.pixels =~= b.pixels);
    assert(lhs =~= b);
}

impl BitmapBuffer {
    /// Paint one square brush mark of side `t` roughly centered on
    /// `(px, py)`; the part of the mark that lies outside the surface is
    /// clipped away.
    pub fn stamp(&mut self, px: u32, py: u32, t: u32, color: Rgba)
        requires
            old(self)@.wf(),
            1 <= t,
        ensures
            final(self)@ == spec_paint(
                old(self)@,
                color,
                stamp_cov(px as int, py as int, t as int),
            ),
            final(self)@.wf(),
    {
        let ghost b = old(self)@;
        let ghost w = b.width as int;
        let ghost h = b.height as int;
        let width = self.width;
        let height = self.height;
        let half: i64 = (t / 2) as i64;
        let x_lo: i64 = px as i64 - half;
        let x_hi: i64 = px as i64 - half + t as i64;
        let y_lo: i64 = py as i64 - half;
        let y_hi: i64 = py as i64 - half + t as i64;
        let x_start: u32 = if x_lo < 0 {
            0
        } else if x_lo > width as i64 {
            width
        } else {
            x_lo as u32
        };
        let x_end: u32 = if x_hi < 0 {
            0
        } else if x_hi > width as i64 {
            width
        } else {
            x_hi as u32
        };
        let y_start: u32 = if y_lo < 0 {
            0
        } else if y_lo > height as i64 {
            height
        } else {
            y_lo as u32
        };
        let y_end: u32 = if y_hi < 0 {
            0
        } else if y_hi > height as i64 {
            height
        } else {
            y_hi as u32
        };
        let ghost pxi = px as int;
        let ghost pyi = py as int;
        let ghost ti = t as int;
        proof {
            lemma_paint_nothing(b, color, stamp_done(pxi, pyi, ti, y_start as int, 0));
        }
        let mut yy: u32 = y_start;
        while yy < y_end
            invariant
                b.wf(),
                y_start <= yy <= y_end,
                y_end <= height,
                x_start <= x_end <= width,
                w == b.width,
                h == b.height,
                width == b.width,
                height == b.height,
                ti == t,
                1 <= ti,
                x_lo == pxi - ti / 2,
                x_hi == pxi - ti / 2 + ti,
                y_lo == pyi - ti / 2,
                y_hi == pyi - ti / 2 + ti,
                x_start == if x_lo < 0 { 0 } else if x_lo > w { w } else { x_lo as int },
                x_end == if x_hi < 0 { 0 } else if x_hi > w { w } else { x_hi as int },
                y_start == if y_lo < 0 { 0 } else if y_lo > h { h } else { y_lo as int },
                y_end == if y_hi < 0 { 0 } else if y_hi > h { h } else { y_hi as int },
                self@ == spec_paint(b, color, stamp_done(pxi, pyi, ti, yy as int, 0)),
                self@.wf(),
            decreases y_end - yy,
        {
            proof {
                let f = stamp_done(pxi, pyi, ti, yy as int, 0);
                let g = stamp_done(pxi, pyi, ti, yy as int, x_start as int);
                assert forall|x: int, y: int|
                    0 <= x < b.width && 0 <= y < b.height implies (#[trigger] f(x, y) <==> #[trigger] g(
                    x,
                    y,
                )) by {}
                lemma_paint_equiv(b, color, f, g);
            }
            let mut xx: u32 = x_start;
            while xx < x_end
                invariant
                    b.wf(),
                    y_start <= yy < y_end,
                    x_start <= xx <= x_end,
                    y_end <= height,
                    x_start <= x_end <= width,
                    w == b.width,
                    h == b.height,
                    width == b.width,
                    height == b.height,
                    ti == t,
                    1 <= ti,
                    x_lo == pxi - ti / 2,
                    x_hi == pxi - ti / 2 + ti,
                    y_lo == pyi - ti / 2,
                    y_hi == pyi - ti / 2 + ti,
                    x_start == if x_lo < 0 { 0 } else if x_lo > w { w } else { x_lo as int },
                    x_end == if x_hi < 0 { 0 } else if x_hi > w { w } else { x_hi as int },
                    y_start == if y_lo < 0 { 0 } else if y_lo > h { h } else { y_lo as int },
                    y_end == if y_hi < 0 { 0 } else if y_hi > h { h } else { y_hi as int },
                    self@ == spec_paint(b, color, stamp_done(pxi, pyi, ti, yy as int, xx as int)),
                    self@.wf(),
                decreases x_end - xx,
            {
                let ghost before = self@;
                self.set_pixel(xx, yy, color);
                proof {
                    let f = stamp_done(pxi, pyi, ti, yy as int, xx as int);
                    let g = point_cov(xx as int, yy as int);
                    let hh = stamp_done(pxi, pyi, ti, yy as int, xx as int + 1);
                    assert(stamp_covers(pxi, pyi, ti, xx as int, yy as int));
                    assert forall|x: int, y: int| #[trigger]
                        hh(x, y) <==> f(x, y) || g(x, y) by {}
                    lemma_paint_compose(b, color, f, g, hh);
                }
                xx = xx + 1;
            }
            proof {
                let f = stamp_done(pxi, pyi, ti, yy as int, x_end as int);
                let g = stamp_done(pxi, pyi, ti, yy as int + 1, 0);
                assert forall|x: int, y: int|
                    0 <= x < b.width && 0 <= y < b.height implies (#[trigger] f(x, y) <==> #[trigger] g(
                    x,
                    y,
                )) by {}
                lemma_paint_equiv(b, color, f, g);
            }
            yy = yy + 1;
        }
        proof {
            let f = stamp_done(pxi, pyi, ti, y_end as int, 0);
            let g = stamp_cov(pxi, pyi, ti);
            assert forall|x: int, y: int|
                0 <= x < b.width && 0 <= y < b.height implies (#[trigger] f(x, y) <==> #[trigger] g(
                x,
                y,
            )) by {}
            lemma_paint_equiv(b, color, f, g);
        }
    }
}

/// Distance between two coordinates.
pub open spec fn abs_diff(a: int, b: int) -> int {
    if a >= b {
        a - b
    } else {
        b - a
    }
}

/// Number of brush marks past the first one used to sweep a segment: the
/// larger of the two coordinate distances.
pub open spec fn seg_steps(x0: int, y0: int, x1: int, y1: int) -> int {
    if abs_diff(x1, x0) >= abs_diff(y1, y0) {
        abs_diff(x1, x0)
    } else {
        abs_diff(y1, y0)
    }
}

/// Coordinate of the `k`-th of `n` evenly spaced marks between `a0` and `a1`.
pub open spec fn step_coord(a0: int, a1: int, k: int, n: int) -> int {
    if n <= 0 {
        a0
    } else if a1 >= a0 {
        a0 + ((a1 - a0) * k) / n
    } else {
        a0 - ((a0 - a1) * k) / n
    }
}

/// The region swept by the first `j` brush marks of a segment.
pub open spec fn seg_partial(
    x0: int,
    y0: int,
    x1: int,
    y1: int,
    t: int,
    j: int,
) -> spec_fn(int, int) -> bool {
    |x: int, y: int|
        exists|k: int|
            0 <= k < j && #[trigger] stamp_covers(
                step_coord(x0, x1, k, seg_steps(x0, y0, x1, y1)),
                step_coord(y0, y1, k, seg_steps(x0, y0, x1, y1)),
                t,
                x,
                y,
            )
}

/// The region swept by a whole segment drawn with a square brush of side `t`.
pub open spec fn seg_cov(x0: int, y0: int, x1: int, y1: int, t: int) -> spec_fn(int, int) -> bool {
    seg_partial(x0, y0, x1, y1, t, seg_steps(x0, y0, x1, y1) + 1)
}

/// The bitmap after one straight stroke segment from `(x0, y0)` to
/// `(x1, y1)`, rasterized as a row of square brush marks of side `t` and
/// clipped to the surface.
pub open spec fn spec_draw_segment(
    b: BitmapV,
    x0: int,
    y0: int,
    x1: int,
    y1: int,
    color: Rgba,
    t: int,
) -> BitmapV {
    spec_paint(b, color, seg_cov(x0, y0, x1, y1, t))
}

/// An evenly spaced mark between `a0` and `a1` never leaves that range.
proof fn lemma_step_coord_in_range(a0: int, a1: int, k: int, n: int)
    requires
        0 <= k <= n,
        abs_diff(a1, a0) <= n,
    ensures
        if a1 >= a0 {
            a0 <= step_coord(a0, a1, k, n) <= a1
        } else {
            a1 <= step_coord(a0, a1, k, n) <= a0
        },
        1 <= n ==> 0 <= (abs_diff(a1, a0) * k) / n <= abs_diff(a1, a0),
{
    if n <= 0 {
    } else {
        let a = abs_diff(a1, a0);
        assert(0 <= a * k && a * k <= a * n) by (nonlinear_arith)
            requires
                0 <= a,
                0 <= k <= n,
        ;
        assert((a * k) / n <= (a * n) / n && 0 <= (a * k) / n) by (nonlinear_arith)
            requires
                0 <= a * k <= a * n,
                1 <= n,
        ;
        assert((a * n) / n == a) by (nonlinear_arith)
            requires
                1 <= n,
        ;
    }
}

impl BitmapBuffer {
    /// Rasterize one straight stroke segment from `(x0, y0)` to `(x1, y1)`
    /// with a square brush of side `t`, clipped to the surface.
    pub fn draw_segment(&mut self, x0: u32, y0: u32, x1: u32, y1: u32, color: Rgba, t: u32)
        requires
            old(self)@.wf(),
            1 <= t,
        ensures
            final(self)@ == spec_draw_segment(
                old(self)@,
                x0 as int,
                y0 as int,
                x1 as int,
                y1 as int,
                color,
                t as int,
            ),
            final(self)@.wf(),
    {
        let ghost b = old(self)@;
        let adx: u32 = if x1 >= x0 {
            x1 - x0
        } else {
            x0 - x1
        };
        let ady: u32 = if y1 >= y0 {
            y1 - y0
        } else {
            y0 - y1
        };
        let n: u32 = if adx >= ady {
            adx
        } else {
            ady
        };
        let ghost ni = seg_steps(x0 as int, y0 as int, x1 as int, y1 as int);
        proof {
            assert(n == ni);
            lemma_paint_nothing(
                b,
                color,
                seg_partial(x0 as int, y0 as int, x1 as int, y1 as int, t as int, 0),
            );
        }
        let mut k: u64 = 0;
        while k <= n as u64
            invariant
                b.wf(),
                k <= n as u64 + 1,
                ni == seg_steps(x0 as int, y0 as int, x1 as int, y1 as int),
                n == ni,
                adx == abs_diff(x1 as int, x0 as int),
                ady == abs_diff(y1 as int, y0 as int),
                adx <= n,
                ady <= n,
                1 <= t,
                self@ == spec_paint(
                    b,
                    color,
                    seg_partial(x0 as int, y0 as int, x1 as int, y1 as int, t as int, k as int),
                ),
                self@.wf(),
            decreases n as u64 + 1 - k,
        {
            proof {
                assert((adx as u64) * k <= u64::MAX) by (nonlinear_arith)
                    requires
                        adx <= u32::MAX,
                        k <= u32::MAX,
                ;
                assert((ady as u64) * k <= u64::MAX) by (nonlinear_arith)
                    requires
                        ady <= u32::MAX,
                        k <= u32::MAX,
                ;
                lemma_step_coord_in_range(x0 as int, x1 as int, k as int, ni);
                lemma_step_coord_in_range(y0 as int, y1 as int, k as int, ni);
            }
            let off_x: u64 = if n == 0 {
                0
            } else {
                ((adx as u64) * k) / (n as u64)
            };
            let off_y: u64 = if n == 0 {
                0
            } else {
                ((ady as u64) * k) / (n as u64)
            };
            let px: u32 = if x1 >= x0 {
                x0 + (off_x as u32)
            } else {
                x0 - (off_x as u32)
            };
            let py: u32 = if y1 >= y0 {
                y0 + (off_y as u32)
            } else {
                y0 - (off_y as u32)
            };
            proof {
                assert(px == step_coord(x0 as int, x1 as int, k as int, ni));
                assert(py == step_coord(y0 as int, y1 as int, k as int, ni));
            }
            self.stamp(px, py, t, color);
            proof {
                let f = seg_partial(x0 as int, y0 as int, x1 as int, y1 as int, t as int, k as int);
                let g = stamp_cov(px as int, py as int, t as int);
                let hh = seg_partial(
                    x0 as int,
                    y0 as int,
                    x1 as int,
                    y1 as int,
                    t as int,
                    k as int + 1,
                );
                assert forall|x: int, y: int| #[trigger] hh(x, y) <==> f(x, y) || g(x, y) by {
                    if hh(x, y) {
                        let kw = choose|kw: int|
                            0 <= kw < k as int + 1 && #[trigger] stamp_covers(
                                step_coord(x0 as int, x1 as int, kw, ni),
                                step_coord(y0 as int, y1 as int, kw, ni),
                                t as int,
                                x,
                                y,
                            );
                        if kw < k as int {
                            assert(f(x, y));
                        } else {
                            assert(g(x, y));
                        }
                    }
                    if f(x, y) {
                        let kw = choose|kw: int|
                            0 <= kw < k as int && #[trigger] stamp_covers(
                                step_coord(x0 as int, x1 as int, kw, ni),
                                step_coord(y0 as int, y1 as int, kw, ni),
                                t as int,
                                x,
                                y,
                            );
                        assert(stamp_covers(
                            step_coord(x0 as int, x1 as int, kw, ni),
                            step_coord(y0 as int, y1 as int, kw, ni),
                            t as int,
                            x,
                            y,
                        ));
                        assert(hh(x, y));
                    }
                    if g(x, y) {
                        assert(stamp_covers(
                            step_coord(x0 as int, x1 as int, k as int, ni),
                            step_coord(y0 as int, y1 as int, k as int, ni),
                            t as int,
                            x,
                            y,
                        ));
                        assert(hh(x, y));
                    }
                }
                lemma_paint_compose(b, color, f, g, hh);
            }
            k = k + 1;
        }
    }
}

} // verus!
