//! The image buffer that the renderer fills, and its P3 text encoding.
use vstd::prelude::*;
use crate::decimal::{dec, push_decimal};
use vstd::arithmetic::div_mod::lemma_fundamental_div_mod_converse;

verus! {

/// ASCII space.
pub const SPACE: u8 = 32;

/// ASCII newline.
pub const NEWLINE: u8 = 10;

/// ASCII `P` and `3`, the magic of a P3 file.
pub const MAGIC_P: u8 = 80;

pub const MAGIC_3: u8 = 51;

/// ASCII `2` and `5`, for the largest channel value 255.
pub const DIGIT_2: u8 = 50;

pub const DIGIT_5: u8 = 53;

/// What an image holds: its size and its pixels in row-major order, row
/// `y = 0` being the bottom row of the picture.
pub struct Raster<P> {
    pub width: nat,
    pub height: nat,
    pub pixels: Seq<P>,
}

/// The pixels of row `y`, left to right.
pub open spec fn row<P>(r: Raster<P>, y: nat) -> Seq<P> {
    r.pixels.subrange((y * r.width) as int, (y * r.width + r.width) as int)
}

/// The top `rows` rows of the picture, from the top down: row
/// `height - 1` first, then `height - 2`, and so on.
pub open spec fn top_rows<P>(r: Raster<P>, rows: nat) -> Seq<P>
    decreases rows,
{
    if rows == 0 || rows > r.height {
        Seq::empty()
    } else {
        top_rows(r, (rows - 1) as nat) + row(r, (r.height - rows) as nat)
    }
}

/// All pixels from the top row down to the bottom one: the order of a P3 file.
pub open spec fn top_down<P>(r: Raster<P>) -> Seq<P> {
    top_rows(r, r.height)
}

/// The top `k` rows hold `k * width` pixels.
pub proof fn lemma_top_rows_len<P>(r: Raster<P>, k: nat)
    requires
        r.pixels.len() == r.width * r.height,
        k <= r.height,
    ensures
        top_rows(r, k).len() == k * r.width,
    decreases k,
{
    if k > 0 {
        let k1 = (k - 1) as nat;
        lemma_top_rows_len(r, k1);
        let y = (r.height - k) as nat;
        assert(y * r.width + r.width <= r.width * r.height) by (nonlinear_arith)
            requires
                y < r.height,
        ;
        assert(row(r, y).len() == r.width);
        assert(top_rows(r, k) == top_rows(r, k1) + row(r, y));
        assert(k1 * r.width + r.width == k * r.width) by (nonlinear_arith)
            requires
                k1 + 1 == k,
        ;
    } else {
        assert(0 * r.width == 0);
    }
}

proof fn lemma_top_rows_index<P>(r: Raster<P>, rows: nat, k: int)
    requires
        r.pixels.len() == r.width * r.height,
        rows <= r.height,
        0 <= k < rows * r.width,
    ensures
        top_rows(r, rows).len() == rows * r.width,
        top_rows(r, rows)[k] == r.pixels[(r.height - 1 - k / r.width as int) * r.width + k % r.width as int],
    decreases rows,
{
    let w = r.width as int;
    let h = r.height as int;
    let prev = (rows - 1) as nat;
    let y = h - rows;
    assert(0 < w && 0 < rows) by (nonlinear_arith)
        requires
            0 <= k < rows * w,
            0 <= w,
            0 <= rows,
    ;
    assert(y * w + w <= w * h && 0 <= y * w && prev * w + w == rows * w) by (nonlinear_arith)
        requires
            0 <= y < h,
            0 < w,
            prev + 1 == rows,
    ;
    assert(row(r, y as nat).len() == w);
    lemma_top_rows_len(r, prev);
    assert(top_rows(r, rows) == top_rows(r, prev) + row(r, y as nat));
    if k < prev * w {
        lemma_top_rows_index(r, prev, k);
    } else {
        let c = k - prev * w;
        lemma_fundamental_div_mod_converse(k, w, prev as int, c);
        assert(top_rows(r, rows)[k] == row(r, y as nat)[c]);
        assert((h - 1 - prev) * w + c == y * w + c) by (nonlinear_arith)
            requires
                y == h - 1 - prev,
        ;
    }
}

/// Where each pixel of `r` goes in a P3 file: position `k` of the file
/// order holds column `k % width` of row `height - 1 - k / width`.
pub proof fn lemma_top_down_index<P>(r: Raster<P>, k: int)
    requires
        r.pixels.len() == r.width * r.height,
        0 <= k < r.width * r.height,
    ensures
        top_down(r).len() == r.width * r.height,
        top_down(r)[k] == r.pixels[(r.height - 1 - k / r.width as int) * r.width + k % r.width as int],
{
    assert(r.width * r.height == r.height * r.width) by (nonlinear_arith);
    lemma_top_rows_index(r, r.height, k);
}

/// The line of one pixel: its three channels in decimal, separated by
/// spaces, ended by a newline.
pub open spec fn pixel_text(p: (u16, u16, u16)) -> Seq<u8> {
    dec(p.0 as nat) + seq![SPACE] + dec(p.1 as nat) + seq![SPACE] + dec(p.2 as nat) + seq![NEWLINE]
}

/// The lines of the pixels `ps`, in their order.
pub open spec fn pixels_text(ps: Seq<(u16, u16, u16)>) -> Seq<u8>
    decreases ps.len(),
{
    if ps.len() == 0 {
        Seq::empty()
    } else {
        pixels_text(ps.drop_last()) + pixel_text(ps.last())
    }
}

/// The P3 header: the magic `P3`; the width and the height, separated by a
/// space; the largest channel value 255; each ended by a newline.
pub open spec fn p3_header(width: nat, height: nat) -> Seq<u8> {
    seq![MAGIC_P, MAGIC_3, NEWLINE] + dec(width) + seq![SPACE] + dec(height) + seq![NEWLINE, DIGIT_2, DIGIT_5, DIGIT_5, NEWLINE]
}

/// The whole P3 file of `r`: the header, then one line per pixel from the
/// top row down, each row left to right.
pub open spec fn p3_text(r: Raster<(u16, u16, u16)>) -> Seq<u8> {
    p3_header(r.width, r.height) + pixels_text(top_down(r))
}

/// A `width` by `height` image of pixels `P`, stored row-major.
pub struct PPMImage<P> {
    width: usize,
    height: usize,
    pixels: Vec<P>,
}

impl<P> View for PPMImage<P> {
    type V = Raster<P>;

    closed spec fn view(&self) -> Raster<P> {
        Raster { width: self.width as nat, height: self.height as nat, pixels: self.pixels@ }
    }
}

impl<P> PPMImage<P> {
    /// The buffer holds exactly one pixel per column and row.
    pub open spec fn wf(&self) -> bool {
        self@.pixels.len() == self@.width * self@.height
    }
}

impl<P: Copy> PPMImage<P> {
    /// An image of the given size whose every pixel is `fill`.
    pub fn new(width: usize, height: usize, fill: P) -> (r: Self)
        requires
            width * height <= usize::MAX,
        ensures
            r.wf(),
            r@ == (Raster { width: width as nat, height: height as nat, pixels: Seq::new((width * height) as nat, |k: int| fill) }),
    {
        let n = width * height;
        let mut pixels: Vec<P> = Vec::new();
        while pixels.len() < n
            invariant
                pixels@ == Seq::new(pixels@.len(), |k: int| fill),
                pixels@.len() <= n,
            decreases n - pixels@.len(),
        {
            pixels.push(fill);
            assert(pixels@ =~= Seq::new(pixels@.len(), |k: int| fill));
        }
        PPMImage { width, height, pixels }
    }

    pub fn width(&self) -> (r: usize)
        ensures
            r == self@.width,
    {
        self.width
    }

    pub fn height(&self) -> (r: usize)
        ensures
            r == self@.height,
    {
        self.height
    }

    /// The number of pixels, `width * height`.
    pub fn pixel_count(&self) -> (r: usize)
        requires
            self.wf(),
        ensures
            r == self@.pixels.len(),
            r == self@.width * self@.height,
    {
        self.pixels.len()
    }

    /// The pixel in column `x` of row `y`.
    pub fn index(&self, x: usize, y: usize) -> (r: P)
        requires
            self.wf(),
            x < self@.width,
            y < self@.height,
        ensures
            r == self@.pixels[y * self@.width + x],
            r == row(self@, y as nat)[x as int],
    {
        let n = self.pixels.len();
        proof {
            assert(y * self.width + x < self.width * self.height
                && y * self.width + self.width <= self.width * self.height) by (nonlinear_arith)
                requires
                    x < self.width,
                    y < self.height,
            ;
        }
        self.pixels[y * self.width + x]
    }

    /// Sets the pixel in column `x` of row `y` to `p`; the others stay.
    pub fn set(&mut self, x: usize, y: usize, p: P)
        requires
            old(self).wf(),
            x < old(self)@.width,
            y < old(self)@.height,
        ensures
            final(self).wf(),
            final(self)@ == (Raster {
                pixels: old(self)@.pixels.update(y * old(self)@.width + x, p),
                ..old(self)@
            }),
    {
        let n = self.pixels.len();
        proof {
            assert(y * self.width + x < self.width * self.height) by (nonlinear_arith)
                requires
                    x < self.width,
                    y < self.height,
            ;
        }
        let i = y * self.width + x;
        self.pixels.set(i, p);
    }
}

/// Appends the line of pixel `p` to `out`.
fn push_pixel(out: &mut Vec<u8>, p: (u16, u16, u16))
    ensures
        final(out)@ == old(out)@ + pixel_text(p),
{
    push_decimal(out, p.0 as u64);
    out.push(SPACE);
    push_decimal(out, p.1 as u64);
    out.push(SPACE);
    push_decimal(out, p.2 as u64);
    out.push(NEWLINE);
    assert(final(out)@ =~= old(out)@ + pixel_text(p));
}

impl PPMImage<(u16, u16, u16)> {
    /// Appends the P3 file of this image to `out`: the header, then the rows
    /// from the top of the picture (`y = height - 1`) down to `y = 0`.
    pub fn write(&self, out: &mut Vec<u8>)
        requires
            self.wf(),
        ensures
            final(out)@ == old(out)@ + p3_text(self@),
    {
        out.push(MAGIC_P);
        out.push(MAGIC_3);
        out.push(NEWLINE);
        push_decimal(out, self.width as u64);
        out.push(SPACE);
        push_decimal(out, self.height as u64);
        out.push(NEWLINE);
        out.push(DIGIT_2);
        out.push(DIGIT_5);
        out.push(DIGIT_5);
        out.push(NEWLINE);
        let ghost start = out@;
        assert(start =~= old(out)@ + p3_header(self@.width, self@.height));
        assert(out@ =~= start + pixels_text(top_rows(self@, 0)));
        let mut rows: usize = 0;
        while rows < self.height
            invariant
                self.wf(),
                rows <= self@.height,
                out@ == start + pixels_text(top_rows(self@, rows as nat)),
            decreases self@.height - rows,
        {
            let y = self.height - 1 - rows;
            let mut x: usize = 0;
            let ghost done = top_rows(self@, rows as nat);
            assert(y * self@.width + self@.width <= self@.width * self@.height) by (nonlinear_arith)
                requires
                    y < self@.height,
            ;
            assert(done + row(self@, y as nat).take(0) =~= done);
            while x < self.width
                invariant
                    self.wf(),
                    x <= self@.width,
                    y < self@.height,
                    row(self@, y as nat).len() == self@.width,
                    out@ == start + pixels_text(done + row(self@, y as nat).take(x as int)),
                decreases self@.width - x,
            {
                let p = self.index(x, y);
                push_pixel(out, p);
                let ghost before = done + row(self@, y as nat).take(x as int);
                let ghost after = done + row(self@, y as nat).take(x + 1);
                assert(after.drop_last() =~= before);
                assert(after.last() == p);
                x = x + 1;
            }
            assert(row(self@, y as nat).take(self@.width as int) =~= row(self@, y as nat));
            rows = rows + 1;
        }
    }
}

} // verus!
