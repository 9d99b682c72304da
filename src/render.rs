//! The integer side of the parallel fill: which columns each worker takes,
//! and the single collector that writes finished pixels into the image.
use vstd::prelude::*;
use crate::ppm::{PPMImage, Raster};

verus! {

/// The `i`-th range of columns when `0..width` is cut into runs of `chunk`
/// columns: it starts at `i * chunk` and ends `chunk` later, or at `width`.
pub open spec fn column_range(width: nat, chunk: nat, i: nat) -> (nat, nat) {
    (i * chunk, if i * chunk + chunk <= width { i * chunk + chunk } else { width })
}

/// Cuts the columns `0..width` into contiguous ranges `(start, end)` of
/// `chunk` columns each, the last one possibly shorter: one range for each
/// start below `width`, in order.
pub fn column_ranges(width: usize, chunk: usize) -> (r: Vec<(usize, usize)>)
    requires
        chunk > 0,
    ensures
        forall|i: int| 0 <= i < r@.len() ==> (#[trigger] r@[i]).0 == column_range(width as nat, chunk as nat, i as nat).0
            && r@[i].1 == column_range(width as nat, chunk as nat, i as nat).1,
        forall|i: int| 0 <= i < r@.len() ==> #[trigger] (i * chunk) < width,
        r@.len() * chunk >= width,
{
    let mut r: Vec<(usize, usize)> = Vec::new();
    let mut start: usize = 0;
    assert(r@.len() * chunk == 0) by (nonlinear_arith)
        requires
            r@.len() == 0,
    ;
    while start < width
        invariant
            start == (if r@.len() * chunk <= width { r@.len() * chunk } else { width as int }),
            chunk > 0,
            forall|i: int| 0 <= i < r@.len() ==> (#[trigger] r@[i]).0 == column_range(width as nat, chunk as nat, i as nat).0
                && r@[i].1 == column_range(width as nat, chunk as nat, i as nat).1,
            forall|i: int| 0 <= i < r@.len() ==> #[trigger] (i * chunk) < width,
        decreases width - start,
    {
        let ghost n = r@.len();
        assert((n + 1) * chunk == n * chunk + chunk) by (nonlinear_arith);
        let end: usize = if width - start <= chunk {
            width
        } else {
            start + chunk
        };
        r.push((start, end));
        start = end;
    }
    r
}

/// Every column `x < width` lies in exactly one of the ranges of
/// `column_ranges`: the one of index `x / chunk`.
pub proof fn lemma_column_in_one_range(width: nat, chunk: nat, x: nat, i: nat)
    requires
        chunk > 0,
        x < width,
    ensures
        (x / chunk) * chunk < width,
        column_range(width, chunk, x / chunk).0 <= x < column_range(width, chunk, x / chunk).1,
        column_range(width, chunk, i).0 <= x < column_range(width, chunk, i).1 ==> i == x / chunk,
{
    let q = x / chunk;
    assert(q * chunk <= x < q * chunk + chunk) by (nonlinear_arith)
        requires
            chunk > 0,
            q == x / chunk,
    ;
    if i * chunk <= x && x < i * chunk + chunk {
        assert(i == q) by (nonlinear_arith)
            requires
                chunk > 0,
                q * chunk <= x < q * chunk + chunk,
                i * chunk <= x < i * chunk + chunk,
        ;
    }
}

/// The one writer of the image while workers render: it stores each
/// finished pixel and counts them, and the image is complete once it has
/// received one pixel per position.
pub struct Collector<P> {
    image: PPMImage<P>,
    received: usize,
}

impl<P> View for Collector<P> {
    /// The image so far, and the number of pixels received.
    type V = (Raster<P>, nat);

    closed spec fn view(&self) -> (Raster<P>, nat) {
        (self.image@, self.received as nat)
    }
}

impl<P> Collector<P> {
    /// The image is well formed and has not been sent more pixels than it holds.
    pub open spec fn wf(&self) -> bool {
        &&& self@.0.pixels.len() == self@.0.width * self@.0.height
        &&& self@.1 <= self@.0.width * self@.0.height
    }
}

impl<P: Copy> Collector<P> {
    /// A collector that writes into `image`, having received nothing yet.
    pub fn new(image: PPMImage<P>) -> (r: Self)
        requires
            image.wf(),
        ensures
            r.wf(),
            r@ == (image@, 0nat),
    {
        Collector { image, received: 0 }
    }

    /// Stores the pixel `p` finished for column `x` of row `y`, and says
    /// whether the image is now complete.
    pub fn receive(&mut self, x: usize, y: usize, p: P) -> (complete: bool)
        requires
            old(self).wf(),
            x < old(self)@.0.width,
            y < old(self)@.0.height,
            old(self)@.1 < old(self)@.0.width * old(self)@.0.height,
        ensures
            final(self).wf(),
            final(self)@.0 == (Raster {
                pixels: old(self)@.0.pixels.update(y * old(self)@.0.width + x, p),
                ..old(self)@.0
            }),
            final(self)@.1 == old(self)@.1 + 1,
            complete == (final(self)@.1 == final(self)@.0.width * final(self)@.0.height),
    {
        let n = self.image.pixel_count();
        self.image.set(x, y, p);
        self.received = self.received + 1;
        self.received == n
    }

    /// Whether one pixel per position has been received.
    pub fn is_complete(&self) -> (r: bool)
        requires
            self.wf(),
        ensures
            r == (self@.1 == self@.0.width * self@.0.height),
    {
        self.received == self.image.pixel_count()
    }

    /// The image as written so far.
    pub fn into_image(self) -> (r: PPMImage<P>)
        requires
            self.wf(),
        ensures
            r.wf(),
            r@ == self@.0,
    {
        self.image
    }
}

} // verus!
