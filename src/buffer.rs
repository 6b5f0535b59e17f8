use vstd::prelude::*;
use crate::color::Vec3;
use vstd::arithmetic::div_mod::lemma_fundamental_div_mod;

verus! {

/// The colour stored at pixel `(x, y)` of a row-major RGB byte sequence
/// whose rows are `w` pixels wide.
pub open spec fn pixel_of(bytes: Seq<u8>, w: int, x: int, y: int) -> Vec3 {
    let i = (y * w + x) * 3;
    Vec3 { r: bytes[i], g: bytes[i + 1], b: bytes[i + 2] }
}

/// `b` with its rows of `row` bytes in reverse order, for `h` rows.
pub open spec fn flip_rows(b: Seq<u8>, row: int, h: int) -> Seq<u8> {
    Seq::new(b.len(), |i: int| b[(h - 1 - i / row) * row + i % row])
}

/// A pixel inside a `w` by `h` grid has a flat index below `w * h`.
pub proof fn lemma_pixel_index(w: int, h: int, x: int, y: int)
    requires
        0 <= x < w,
        0 <= y < h,
    ensures
        0 <= y * w + x < w * h,
        (y * w + x) * 3 + 2 < w * h * 3,
{
    assert(0 <= y * w) by (nonlinear_arith)
        requires 0 <= y, 0 <= w;
    assert(y * w + x < w * h) by (nonlinear_arith)
        requires 0 <= x < w, 0 <= y < h;
    assert((y * w + x) * 3 + 2 < w * h * 3) by (nonlinear_arith)
        requires y * w + x < w * h, 0 <= y * w + x;
}

/// Two pixels of one row width share a flat index only if they are the same pixel.
pub proof fn lemma_pixel_index_injective(w: int, x1: int, y1: int, x2: int, y2: int)
    requires
        0 <= x1 < w,
        0 <= x2 < w,
        0 <= y1,
        0 <= y2,
        y1 * w + x1 == y2 * w + x2,
    ensures
        x1 == x2,
        y1 == y2,
{
    if y1 < y2 {
        assert(y1 * w + w <= y2 * w) by (nonlinear_arith)
            requires y1 < y2, 0 <= w;
    } else if y2 < y1 {
        assert(y2 * w + w <= y1 * w) by (nonlinear_arith)
            requires y2 < y1, 0 <= w;
    }
}

/// A flat RGB pixel buffer in row-major order, origin at the top left.
pub struct ColorBuffer {
    buffer: Vec<u8>,
    width: usize,
    height: usize,
    channels: usize,
}

impl ColorBuffer {
    /// Width in pixels.
    pub closed spec fn spec_width(&self) -> int {
        self.width as int
    }

    /// Height in pixels.
    pub closed spec fn spec_height(&self) -> int {
        self.height as int
    }

    /// The stored bytes, three per pixel in R, G, B order.
    pub closed spec fn bytes(&self) -> Seq<u8> {
        self.buffer@
    }

    /// The buffer holds exactly three bytes for every pixel of its grid.
    pub closed spec fn wf(&self) -> bool {
        &&& self.channels == 3
        &&& self.buffer@.len() == self.width * self.height * 3
        &&& self.width * self.height * 3 <= usize::MAX
    }

    pub open spec fn in_bounds(&self, x: int, y: int) -> bool {
        0 <= x < self.spec_width() && 0 <= y < self.spec_height()
    }

    /// The colour of pixel `(x, y)`.
    pub open spec fn pixel(&self, x: int, y: int) -> Vec3 {
        pixel_of(self.bytes(), self.spec_width(), x, y)
    }

    /// A well-formed buffer's byte length is its pixel count times three.
    pub proof fn lemma_len(&self)
        requires
            self.wf(),
        ensures
            self.bytes().len() == self.spec_width() * self.spec_height() * 3,
            self.spec_width() * self.spec_height() * 3 <= usize::MAX,
            self.spec_width() >= 0,
            self.spec_height() >= 0,
    {
    }

    /// A `width` by `height` buffer with every pixel set to `fill`.
    pub fn new(width: usize, height: usize, fill: &Vec3) -> (r: ColorBuffer)
        requires
            width * height * 3 <= usize::MAX,
        ensures
            r.wf(),
            r.spec_width() == width,
            r.spec_height() == height,
            forall|x: int, y: int| r.in_bounds(x, y) ==> #[trigger] r.pixel(x, y) == *fill,
    {
        assert(width * height <= width * height * 3) by (nonlinear_arith)
            requires width * height >= 0;
        let n: usize = width * height;
        let mut buffer: Vec<u8> = Vec::new();
        let mut k: usize = 0;
        while k < n
            invariant
                k <= n,
                n == width * height,
                n * 3 <= usize::MAX,
                buffer@.len() == k * 3,
                forall|j: int| 0 <= j < k ==> #[trigger] buffer@[j * 3] == fill.r
                    && buffer@[j * 3 + 1] == fill.g && buffer@[j * 3 + 2] == fill.b,
            decreases n - k,
        {
            buffer.push(fill.r);
            buffer.push(fill.g);
            buffer.push(fill.b);
            assert(buffer@[k * 3] == fill.r && buffer@[k * 3 + 1] == fill.g && buffer@[k * 3 + 2] == fill.b);
            k = k + 1;
        }
        let r = ColorBuffer { buffer, width, height, channels: 3 };
        assert forall|x: int, y: int| r.in_bounds(x, y) implies #[trigger] r.pixel(x, y) == *fill by {
            lemma_pixel_index(width as int, height as int, x, y);
            let j = y * width + x;
            assert(buffer@[j * 3] == fill.r);
        }
        r
    }

    /// Width in pixels.
    pub fn width(&self) -> (r: usize)
        ensures
            r == self.spec_width(),
    {
        self.width
    }

    /// Height in pixels.
    pub fn height(&self) -> (r: usize)
        ensures
            r == self.spec_height(),
    {
        self.height
    }

    /// Number of bytes stored per pixel.
    pub fn channels(&self) -> (r: usize)
        requires
            self.wf(),
        ensures
            r == 3,
    {
        self.channels
    }

    /// The stored bytes.
    pub fn as_bytes(&self) -> (r: &Vec<u8>)
        ensures
            r@ == self.bytes(),
    {
        &self.buffer
    }

    /// The colour of pixel `(x, y)`.
    pub fn get_pixel(&self, x: usize, y: usize) -> (r: Vec3)
        requires
            self.wf(),
            self.in_bounds(x as int, y as int),
        ensures
            r == self.pixel(x as int, y as int),
    {
        proof {
            lemma_pixel_index(self.width as int, self.height as int, x as int, y as int);
        }
        let i: usize = (y * self.width + x) * 3;
        Vec3 { r: self.buffer[i], g: self.buffer[i + 1], b: self.buffer[i + 2] }
    }

    /// Sets pixel `(x, y)` to `c`, leaving every other pixel as it was.
    pub fn set_pixel(&mut self, x: usize, y: usize, c: &Vec3)
        requires
            old(self).wf(),
            old(self).in_bounds(x as int, y as int),
        ensures
            final(self).wf(),
            final(self).spec_width() == old(self).spec_width(),
            final(self).spec_height() == old(self).spec_height(),
            final(self).pixel(x as int, y as int) == *c,
            forall|qx: int, qy: int|
                #![trigger final(self).pixel(qx, qy)]
                final(self).in_bounds(qx, qy) && !(qx == x && qy == y)
                    ==> final(self).pixel(qx, qy) == old(self).pixel(qx, qy),
    {
        let ghost w = self.width as int;
        let ghost h = self.height as int;
        let ghost before = self.buffer@;
        proof {
            lemma_pixel_index(w, h, x as int, y as int);
        }
        let i: usize = (y * self.width + x) * 3;
        self.buffer.set(i, c.r);
        self.buffer.set(i + 1, c.g);
        self.buffer.set(i + 2, c.b);
        assert forall|qx: int, qy: int|
            #![trigger self.pixel(qx, qy)]
            self.in_bounds(qx, qy) && !(qx == x && qy == y)
                implies self.pixel(qx, qy) == pixel_of(before, w, qx, qy) by {
            lemma_pixel_index(w, h, qx, qy);
            if qy * w + qx == y * w + x {
                lemma_pixel_index_injective(w, qx, qy, x as int, y as int);
            }
        }
    }

    /// The buffer's bytes with the row order reversed: row `d` of the result
    /// is row `height - 1 - d` of the buffer.
    pub fn flipped(&self) -> (r: Vec<u8>)
        requires
            self.wf(),
        ensures
            r@.len() == self.bytes().len(),
            r@ == flip_rows(self.bytes(), self.spec_width() * 3, self.spec_height()),
            forall|d: int, k: int|
                0 <= d < self.spec_height() && 0 <= k < self.spec_width() * 3
                    ==> #[trigger] r@[d * (self.spec_width() * 3) + k]
                        == self.bytes()[(self.spec_height() - 1 - d) * (self.spec_width() * 3) + k],
    {
        let ghost w = self.width as int;
        let ghost h = self.height as int;
        assert(w * h * 3 == h * (w * 3)) by (nonlinear_arith);
        assert(w * 3 <= w * h * 3 || h == 0) by (nonlinear_arith)
            requires w >= 0, h >= 0;
        assert(h * (w * 3) == self.buffer@.len());
        let row: usize = if self.height == 0 { 0 } else { self.width * 3 };
        assert(h * row == self.buffer@.len()) by {
            if h == 0 {
                assert(w * h * 3 == 0) by (nonlinear_arith) requires h == 0;
            }
        }
        let mut out: Vec<u8> = Vec::new();
        let mut d: usize = 0;
        while d < self.height
            invariant
                self.wf(),
                w == self.width,
                h == self.height,
                d <= h,
                h > 0 ==> row == w * 3,
                h * row == self.buffer@.len(),
                w * h * 3 == h * (w * 3),
                out@.len() == d * row,
                forall|d2: int, k: int|
                    0 <= d2 < d && 0 <= k < row
                        ==> #[trigger] out@[d2 * row + k] == self.buffer@[(h - 1 - d2) * row + k],
            decreases h - d,
        {
            assert((h - 1 - d) * row <= h * row) by (nonlinear_arith)
                requires 0 <= d < h, row >= 0;
            let src: usize = (self.height - 1 - d) * row;
            assert(src + row <= h * row) by (nonlinear_arith)
                requires src == (h - 1 - d) * row, 0 <= d < h, row >= 0;
            let mut k: usize = 0;
            while k < row
                invariant
                    self.wf(),
                    w == self.width,
                    h == self.height,
                    d < h,
                    row == w * 3,
                    w * h * 3 == h * (w * 3),
                    src == (h - 1 - d) * row,
                    src + row <= h * row,
                    k <= row,
                    out@.len() == d * row + k,
                    forall|d2: int, k2: int|
                        0 <= d2 < d && 0 <= k2 < row
                            ==> #[trigger] out@[d2 * row + k2] == self.buffer@[(h - 1 - d2) * row + k2],
                    forall|k2: int| 0 <= k2 < k ==> #[trigger] out@[d * row + k2] == self.buffer@[src + k2],
                decreases row - k,
            {
                out.push(self.buffer[src + k]);
                proof {
                    assert forall|d2: int, k2: int|
                        0 <= d2 < d && 0 <= k2 < row
                            implies #[trigger] out@[d2 * row + k2] == self.buffer@[(h - 1 - d2) * row + k2] by {
                        assert(d2 * row + k2 < d * row) by (nonlinear_arith)
                            requires 0 <= d2 < d, 0 <= k2 < row;
                    }
                }
                k = k + 1;
            }
            assert((d + 1) * row == d * row + row) by (nonlinear_arith);
            d = d + 1;
        }
        assert forall|i: int| 0 <= i < out@.len() implies #[trigger] out@[i]
            == self.buffer@[(h - 1 - i / (w * 3)) * (w * 3) + i % (w * 3)] by {
            let rr = row as int;
            assert(rr > 0 && h > 0) by (nonlinear_arith)
                requires 0 <= i < h * rr, h >= 0, rr >= 0;
            lemma_fundamental_div_mod(i, rr);
            let q = i / rr;
            let m = i % rr;
            assert(q < h) by (nonlinear_arith)
                requires i == rr * q + m, 0 <= m, i < h * rr, rr > 0;
            assert(q >= 0) by (nonlinear_arith)
                requires i == rr * q + m, m < rr, i >= 0, rr > 0;
            assert(rr * q == q * rr) by (nonlinear_arith);
            assert(out@[q * rr + m] == self.buffer@[(h - 1 - q) * rr + m]);
        }
        assert(out@ =~= flip_rows(self.buffer@, w * 3, h));
        out
    }
}

} // verus!
