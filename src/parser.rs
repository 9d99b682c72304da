//! Reading a P3 file back into its size, largest channel value and pixels.
use vstd::prelude::*;
use crate::decimal::{dec, is_digit, lemma_dec_digits, lemma_read_dec, read_uint, spec_uint};
use crate::ppm::{
    p3_header, p3_text, pixel_text, pixels_text, top_down, Raster, lemma_top_rows_len,
    DIGIT_2, DIGIT_5, MAGIC_3, MAGIC_P, NEWLINE, SPACE,
};

verus! {

/// ASCII `6`: `P6` is the magic of a binary file.
pub const MAGIC_6: u8 = 54;

/// ASCII tab and carriage return.
pub const TAB: u8 = 9;

pub const CARRIAGE_RETURN: u8 = 13;

/// ASCII whitespace as a P3 file separates its numbers: space, tab,
/// carriage return and newline.
pub open spec fn is_space(b: u8) -> bool {
    b == SPACE || b == TAB || b == CARRIAGE_RETURN || b == NEWLINE
}

/// The first index at or after `i` that does not hold whitespace (or the end).
pub open spec fn spaces_end(s: Seq<u8>, i: int) -> int
    decreases s.len() - i,
{
    if 0 <= i < s.len() && is_space(s[i]) {
        spaces_end(s, i + 1)
    } else {
        i
    }
}

/// Why a text is not a P3 file that this reader takes.
#[derive(Debug, Clone, Copy, PartialEq, Eq, Structural)]
pub enum ParseError {
    /// The text is shorter than the two bytes of a magic.
    MissingMagic,
    /// The magic is neither `P3` nor `P6`.
    UnknownMagic,
    /// A binary `P6` file, which this reader does not decode.
    UnsupportedBinary,
    /// No number, or one above the field's largest value, starts at this index.
    BadNumber(usize),
    /// No whitespace follows the number that ends at this index.
    MissingSpace(usize),
}

/// A number of at most `max` at `i`, then at least one whitespace byte. The
/// result holds the index past that whitespace and the number.
pub open spec fn spec_field(s: Seq<u8>, i: int, max: nat) -> Result<(int, nat), ParseError> {
    match spec_uint(s, i, max) {
        None => Err(ParseError::BadNumber(i as usize)),
        Some((j, v)) => if spaces_end(s, j) == j {
            Err(ParseError::MissingSpace(j as usize))
        } else {
            Ok((spaces_end(s, j), v))
        },
    }
}

/// One pixel at `i`: three channels of at most `u16::MAX`, each followed by
/// whitespace.
pub open spec fn spec_pixel(s: Seq<u8>, i: int) -> Result<(int, (u16, u16, u16)), ParseError> {
    match spec_field(s, i, u16::MAX as nat) {
        Err(e) => Err(e),
        Ok((j, r)) => match spec_field(s, j, u16::MAX as nat) {
            Err(e) => Err(e),
            Ok((k, g)) => match spec_field(s, k, u16::MAX as nat) {
                Err(e) => Err(e),
                Ok((l, b)) => Ok((l, (r as u16, g as u16, b as u16))),
            },
        },
    }
}

/// `n` pixels one after the other from `i`: the first error met, or the
/// index past the last one and the pixels in their order.
pub open spec fn spec_pixels(s: Seq<u8>, i: int, n: nat) -> Result<(int, Seq<(u16, u16, u16)>), ParseError>
    decreases n,
{
    if n == 0 {
        Ok((i, Seq::empty()))
    } else {
        match spec_pixels(s, i, (n - 1) as nat) {
            Err(e) => Err(e),
            Ok((j, ps)) => match spec_pixel(s, j) {
                Err(e) => Err(e),
                Ok((k, p)) => Ok((k, ps.push(p))),
            },
        }
    }
}

/// A P3 file: the magic `P3`, optional whitespace, then width, height and
/// largest channel value (each at most `u32::MAX`), then `width * height`
/// pixels; whatever follows them is ignored. The result holds the width,
/// the height, the largest value and the pixels in file order.
pub open spec fn spec_parse(s: Seq<u8>) -> Result<(u32, u32, u32, Seq<(u16, u16, u16)>), ParseError> {
    if s.len() < 2 {
        Err(ParseError::MissingMagic)
    } else if s[0] == MAGIC_P && s[1] == MAGIC_3 {
        let i = spaces_end(s, 2);
        match spec_field(s, i, u32::MAX as nat) {
            Err(e) => Err(e),
            Ok((j, w)) => match spec_field(s, j, u32::MAX as nat) {
                Err(e) => Err(e),
                Ok((k, h)) => match spec_field(s, k, u32::MAX as nat) {
                    Err(e) => Err(e),
                    Ok((l, max)) => match spec_pixels(s, l, w * h) {
                        Err(e) => Err(e),
                        Ok((_, ps)) => Ok((w as u32, h as u32, max as u32, ps)),
                    },
                },
            },
        }
    } else if s[0] == MAGIC_P && s[1] == MAGIC_6 {
        Err(ParseError::UnsupportedBinary)
    } else {
        Err(ParseError::UnknownMagic)
    }
}

/// Skips whitespace from `i`.
fn skip_spaces(s: &[u8], i: usize) -> (r: usize)
    requires
        i <= s@.len(),
    ensures
        r == spaces_end(s@, i as int),
        i <= r <= s@.len(),
{
    let mut k = i;
    while k < s.len() && (s[k] == SPACE || s[k] == TAB || s[k] == CARRIAGE_RETURN || s[k] == NEWLINE)
        invariant
            i <= k <= s@.len(),
            spaces_end(s@, i as int) == spaces_end(s@, k as int),
        decreases s@.len() - k,
    {
        k = k + 1;
    }
    k
}

/// Reads a number of at most `max` and the whitespace after it.
fn read_field(s: &[u8], i: usize, max: u64) -> (r: Result<(usize, u64), ParseError>)
    requires
        i <= s@.len(),
    ensures
        match r {
            Ok((j, v)) => spec_field(s@, i as int, max as nat) == Ok::<(int, nat), ParseError>((j as int, v as nat))
                && j <= s@.len() && v <= max,
            Err(e) => spec_field(s@, i as int, max as nat) == Err::<(int, nat), ParseError>(e),
        },
{
    match read_uint(s, i, max) {
        None => Err(ParseError::BadNumber(i)),
        Some((j, v)) => {
            proof {
                crate::decimal::lemma_digits_end_bounds(s@, i as int);
            }
            let k = skip_spaces(s, j);
            if k == j {
                Err(ParseError::MissingSpace(j))
            } else {
                Ok((k, v))
            }
        },
    }
}

/// Reads one pixel.
fn read_pixel(s: &[u8], i: usize) -> (r: Result<(usize, (u16, u16, u16)), ParseError>)
    requires
        i <= s@.len(),
    ensures
        match r {
            Ok((j, p)) => spec_pixel(s@, i as int) == Ok::<(int, (u16, u16, u16)), ParseError>((j as int, p))
                && j <= s@.len(),
            Err(e) => spec_pixel(s@, i as int) == Err::<(int, (u16, u16, u16)), ParseError>(e),
        },
{
    let (j, r) = read_field(s, i, u16::MAX as u64)?;
    let (k, g) = read_field(s, j, u16::MAX as u64)?;
    let (l, b) = read_field(s, k, u16::MAX as u64)?;
    Ok((l, (r as u16, g as u16, b as u16)))
}

/// Once reading some prefix of the pixels fails, reading more fails alike.
proof fn lemma_pixels_err(s: Seq<u8>, i: int, k: nat, n: nat, e: ParseError)
    requires
        k <= n,
        spec_pixels(s, i, k) == Err::<(int, Seq<(u16, u16, u16)>), ParseError>(e),
    ensures
        spec_pixels(s, i, n) == Err::<(int, Seq<(u16, u16, u16)>), ParseError>(e),
    decreases n - k,
{
    if k < n {
        lemma_pixels_err(s, i, k, (n - 1) as nat, e);
    }
}

/// A P3 image as read from a file: its size, its largest channel value and
/// its pixels, from the top row down, each row left to right.
#[derive(Debug, Clone)]
pub struct PPMImage {
    pub width: u32,
    pub height: u32,
    pub max: u32,
    pub pixels: Vec<(u16, u16, u16)>,
}

impl PPMImage {
    /// Reads a P3 file.
    pub fn parse(input: &[u8]) -> (r: Result<PPMImage, ParseError>)
        ensures
            match r {
                Ok(img) => spec_parse(input@) == Ok::<(u32, u32, u32, Seq<(u16, u16, u16)>), ParseError>(
                    (img.width, img.height, img.max, img.pixels@),
                ),
                Err(e) => spec_parse(input@) == Err::<(u32, u32, u32, Seq<(u16, u16, u16)>), ParseError>(e),
            },
    {
        if input.len() < 2 {
            return Err(ParseError::MissingMagic);
        }
        if input[0] == MAGIC_P && input[1] == MAGIC_6 {
            return Err(ParseError::UnsupportedBinary);
        }
        if !(input[0] == MAGIC_P && input[1] == MAGIC_3) {
            return Err(ParseError::UnknownMagic);
        }
        let i = skip_spaces(input, 2);
        let (j, width) = read_field(input, i, u32::MAX as u64)?;
        let (k, height) = read_field(input, j, u32::MAX as u64)?;
        let (l, max) = read_field(input, k, u32::MAX as u64)?;
        assert(width * height <= u64::MAX) by (nonlinear_arith)
            requires
                width <= u32::MAX,
                height <= u32::MAX,
        ;
        let n: u64 = width * height;
        let mut pos = l;
        let mut pixels: Vec<(u16, u16, u16)> = Vec::new();
        let mut count: u64 = 0;
        while count < n
            invariant
                input@.len() >= 2 && input@[0] == MAGIC_P && input@[1] == MAGIC_3,
                i == spaces_end(input@, 2),
                spec_field(input@, i as int, u32::MAX as nat) == Ok::<(int, nat), ParseError>((j as int, width as nat)),
                spec_field(input@, j as int, u32::MAX as nat) == Ok::<(int, nat), ParseError>((k as int, height as nat)),
                spec_field(input@, k as int, u32::MAX as nat) == Ok::<(int, nat), ParseError>((l as int, max as nat)),
                n == width * height,
                pos <= input@.len(),
                count <= n,
                spec_pixels(input@, l as int, count as nat)
                    == Ok::<(int, Seq<(u16, u16, u16)>), ParseError>((pos as int, pixels@)),
            decreases n - count,
        {
            match read_pixel(input, pos) {
                Ok((next, p)) => {
                    pixels.push(p);
                    pos = next;
                    count = count + 1;
                },
                Err(e) => {
                    proof {
                        assert(spec_pixels(input@, l as int, (count + 1) as nat)
                            == Err::<(int, Seq<(u16, u16, u16)>), ParseError>(e));
                        lemma_pixels_err(input@, l as int, (count + 1) as nat, n as nat, e);
                    }
                    return Err(e);
                },
            }
        }
        Ok(PPMImage { width: width as u32, height: height as u32, max: max as u32, pixels })
    }

    /// The pixel in column `x` of row `y`, rows counted from the top.
    pub fn index(&self, x: usize, y: usize) -> (r: (u16, u16, u16))
        requires
            y * self.width + x < self.pixels@.len(),
        ensures
            r == self.pixels@[y * self.width + x],
    {
        let _n = self.pixels.len();
        self.pixels[y * (self.width as usize) + x]
    }
}

proof fn lemma_spaces_end_at(s: Seq<u8>, i: int, q: int)
    requires
        0 <= i <= q <= s.len(),
        forall|m: int| i <= m < q ==> is_space(#[trigger] s[m]),
        q == s.len() || !is_space(s[q]),
    ensures
        spaces_end(s, i) == q,
    decreases q - i,
{
    if i < q {
        lemma_spaces_end_at(s, i + 1, q);
    }
}

/// A number written in decimal and followed by one whitespace byte, then by
/// the end or by something other than whitespace, reads back as that number.
proof fn lemma_field_text(s: Seq<u8>, p: int, v: nat, max: nat, sep: u8)
    requires
        0 <= p,
        v <= max,
        is_space(sep),
        p + dec(v).len() + 1 <= s.len(),
        s.subrange(p, p + dec(v).len() + 1) == dec(v).push(sep),
        p + dec(v).len() + 1 == s.len() || !is_space(s[p + dec(v).len() + 1]),
    ensures
        spec_field(s, p, max) == Ok::<(int, nat), ParseError>((p + dec(v).len() + 1, v)),
{
    let q = p + dec(v).len();
    let t = dec(v).push(sep);
    assert(s.subrange(p, q) =~= t.subrange(0, dec(v).len() as int));
    assert(t.subrange(0, dec(v).len() as int) =~= dec(v));
    assert(s[q] == t[dec(v).len() as int]);
    lemma_read_dec(s, p, v, max);
    lemma_spaces_end_at(s, q, q + 1);
}

/// The line of a pixel, followed by the end or by something other than
/// whitespace, reads back as that pixel.
proof fn lemma_pixel_text(s: Seq<u8>, p: int, x: (u16, u16, u16))
    requires
        0 <= p,
        p + pixel_text(x).len() <= s.len(),
        s.subrange(p, p + pixel_text(x).len()) == pixel_text(x),
        p + pixel_text(x).len() == s.len() || !is_space(s[p + pixel_text(x).len()]),
    ensures
        spec_pixel(s, p) == Ok::<(int, (u16, u16, u16)), ParseError>((p + pixel_text(x).len(), x)),
{
    let a = dec(x.0 as nat).push(SPACE);
    let b = dec(x.1 as nat).push(SPACE);
    let c = dec(x.2 as nat).push(NEWLINE);
    let t = pixel_text(x);
    assert(t =~= a + b + c);
    lemma_dec_digits(x.1 as nat);
    lemma_dec_digits(x.2 as nat);
    let pa = p + a.len();
    let pb = pa + b.len();
    let pc = pb + c.len();
    assert(s.subrange(p, pa) =~= t.subrange(0, a.len() as int));
    assert(t.subrange(0, a.len() as int) =~= a);
    assert(s[pa] == t[a.len() as int]);
    assert(t[a.len() as int] == dec(x.1 as nat)[0]);
    lemma_field_text(s, p, x.0 as nat, u16::MAX as nat, SPACE);
    assert(s.subrange(pa, pb) =~= t.subrange(a.len() as int, (a.len() + b.len()) as int));
    assert(t.subrange(a.len() as int, (a.len() + b.len()) as int) =~= b);
    assert(s[pb] == t[(a.len() + b.len()) as int]);
    assert(t[(a.len() + b.len()) as int] == dec(x.2 as nat)[0]);
    lemma_field_text(s, pa, x.1 as nat, u16::MAX as nat, SPACE);
    assert(s.subrange(pb, pc) =~= t.subrange((a.len() + b.len()) as int, t.len() as int));
    assert(t.subrange((a.len() + b.len()) as int, t.len() as int) =~= c);
    lemma_field_text(s, pb, x.2 as nat, u16::MAX as nat, NEWLINE);
}

/// The lines of some pixels begin with a digit.
proof fn lemma_pixels_text_first(ps: Seq<(u16, u16, u16)>)
    requires
        ps.len() > 0,
    ensures
        pixels_text(ps).len() > 0,
        is_digit(pixels_text(ps)[0]),
    decreases ps.len(),
{
    lemma_dec_digits(ps.last().0 as nat);
    if ps.len() > 1 {
        lemma_pixels_text_first(ps.drop_last());
    } else {
        assert(pixels_text(ps.drop_last()).len() == 0);
    }
}

/// The lines of some pixels, followed by the end or by something other
/// than whitespace, read back as those pixels.
proof fn lemma_pixels_read(s: Seq<u8>, base: int, ps: Seq<(u16, u16, u16)>)
    requires
        0 <= base,
        base + pixels_text(ps).len() <= s.len(),
        s.subrange(base, base + pixels_text(ps).len()) == pixels_text(ps),
        base + pixels_text(ps).len() == s.len() || !is_space(s[base + pixels_text(ps).len()]),
    ensures
        spec_pixels(s, base, ps.len()) == Ok::<(int, Seq<(u16, u16, u16)>), ParseError>(
            (base + pixels_text(ps).len(), ps),
        ),
    decreases ps.len(),
{
    if ps.len() == 0 {
        assert(spec_pixels(s, base, 0) == Ok::<(int, Seq<(u16, u16, u16)>), ParseError>((base, Seq::empty())));
        assert(ps =~= Seq::<(u16, u16, u16)>::empty());
    } else {
        let front = ps.drop_last();
        let x = ps.last();
        let tf = pixels_text(front);
        let tx = pixel_text(x);
        let t = pixels_text(ps);
        assert(t == tf + tx);
        let mid = base + tf.len();
        lemma_dec_digits(x.0 as nat);
        assert(s.subrange(base, mid) =~= t.subrange(0, tf.len() as int));
        assert(t.subrange(0, tf.len() as int) =~= tf);
        assert(s[mid] == t[tf.len() as int]);
        assert(t[tf.len() as int] == tx[0]);
        assert(tx[0] == dec(x.0 as nat)[0]);
        lemma_pixels_read(s, base, front);
        assert(s.subrange(mid, mid + tx.len()) =~= t.subrange(tf.len() as int, t.len() as int));
        assert(t.subrange(tf.len() as int, t.len() as int) =~= tx);
        lemma_pixel_text(s, mid, x);
        assert(front.push(x) =~= ps);
    }
}

/// The header of a P3 file, followed by the end or by something other than
/// whitespace, reads back as its magic, size and largest value 255.
proof fn lemma_header_read(s: Seq<u8>, width: nat, height: nat)
    requires
        width <= u32::MAX,
        height <= u32::MAX,
        p3_header(width, height).len() <= s.len(),
        s.subrange(0, p3_header(width, height).len() as int) == p3_header(width, height),
        p3_header(width, height).len() == s.len() || !is_space(s[p3_header(width, height).len() as int]),
    ensures
        s.len() >= 2 && s[0] == MAGIC_P && s[1] == MAGIC_3,
        ({
            let i = spaces_end(s, 2);
            let f1 = spec_field(s, i, u32::MAX as nat);
            f1 is Ok && f1->Ok_0.1 == width && ({
                let f2 = spec_field(s, f1->Ok_0.0, u32::MAX as nat);
                f2 is Ok && f2->Ok_0.1 == height && ({
                    let f3 = spec_field(s, f2->Ok_0.0, u32::MAX as nat);
                    f3 == Ok::<(int, nat), ParseError>((p3_header(width, height).len() as int, 255nat))
                })
            })
        }),
{
    let h = p3_header(width, height);
    let tw = dec(width).push(SPACE);
    let th = dec(height).push(NEWLINE);
    assert(dec(2) == seq![DIGIT_2]);
    assert(dec(25) == seq![DIGIT_2, DIGIT_5]);
    assert(dec(255) == seq![DIGIT_2, DIGIT_5, DIGIT_5]);
    let tm = dec(255).push(NEWLINE);
    assert(h =~= seq![MAGIC_P, MAGIC_3, NEWLINE] + tw + th + tm);
    lemma_dec_digits(width);
    lemma_dec_digits(height);
    let pw = 3int;
    let ph = pw + tw.len();
    let pm = ph + th.len();
    let pb = pm + tm.len();
    assert(pb == h.len());
    assert forall|m: int| 0 <= m < h.len() implies s[m] == h[m] by {
        assert(s.subrange(0, h.len() as int)[m] == s[m]);
    }
    assert(s[0] == h[0] && s[1] == h[1] && s[2] == h[2] && s[3] == h[3]);
    assert(h[3] == dec(width)[0]);
    lemma_spaces_end_at(s, 2, 3);
    assert(h.subrange(pw, ph) =~= tw);
    assert(s.subrange(pw, ph) =~= h.subrange(pw, ph));
    assert(s[ph] == h[ph]);
    assert(h[ph] == dec(height)[0]);
    lemma_field_text(s, pw, width, u32::MAX as nat, SPACE);
    assert(h.subrange(ph, pm) =~= th);
    assert(s.subrange(ph, pm) =~= h.subrange(ph, pm));
    assert(s[pm] == h[pm]);
    lemma_field_text(s, ph, height, u32::MAX as nat, NEWLINE);
    assert(h.subrange(pm, pb) =~= tm);
    assert(s.subrange(pm, pb) =~= h.subrange(pm, pb));
    lemma_field_text(s, pm, 255, u32::MAX as nat, NEWLINE);
}

/// Reading back the P3 file of an image gives the image's width and height,
/// the largest channel value 255, and its pixels from the top row down.
pub proof fn lemma_read_back(r: Raster<(u16, u16, u16)>)
    requires
        r.pixels.len() == r.width * r.height,
        r.width <= u32::MAX,
        r.height <= u32::MAX,
    ensures
        spec_parse(p3_text(r)) == Ok::<(u32, u32, u32, Seq<(u16, u16, u16)>), ParseError>(
            (r.width as u32, r.height as u32, 255u32, top_down(r)),
        ),
{
    let s = p3_text(r);
    let h = p3_header(r.width, r.height);
    let ps = top_down(r);
    let body = pixels_text(ps);
    assert(s == h + body);
    let pb = h.len() as int;
    lemma_top_rows_len(r, r.height);
    assert(ps.len() == r.width * r.height) by (nonlinear_arith)
        requires
            ps.len() == r.height * r.width,
    ;
    if ps.len() > 0 {
        lemma_pixels_text_first(ps);
        assert(s[pb] == body[0]);
    }
    assert(s.subrange(0, pb) =~= h);
    lemma_header_read(s, r.width, r.height);
    assert(s.subrange(pb, s.len() as int) =~= body);
    lemma_pixels_read(s, pb, ps);
}

} // verus!
