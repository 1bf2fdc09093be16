//! The sample buffer: one growing list of samples per pixel.
//!
//! Which pixel a sample lands in, how many samples each pixel holds, and
//! which neighbouring pixels a reconstruction filter may average are exact
//! bookkeeping, kept and proved here over an arbitrary sample type. Averaging
//! the samples themselves, the variance estimate and the conversion to an
//! 8-bit image are floating-point and belong to the application layer, which
//! instantiates the buffer with its color type.

use vstd::prelude::*;

verus! {

/// A noise reduction filter applied to the rendered image.
#[derive(Clone, Copy, Debug, PartialEq, Eq, Structural)]
pub enum Filter {
    /// Box filter with a given radius
    Box(u32),
}

impl Filter {
    /// The pixel radius of the filter window.
    pub open spec fn radius(self) -> u32 {
        match self {
            Filter::Box(r) => r,
        }
    }
}

impl Default for Filter {
    /// Box filter with zero radius, which averages a single pixel.
    fn default() -> (r: Self)
        ensures
            r == Filter::Box(0u32),
    {
        Filter::Box(0)
    }
}

/// A buffer that stores sample results from path tracing, row-major:
/// pixel `(x, y)` owns the sample list at index `y * width + x`.
pub struct Buffer<T> {
    /// The width of the image in pixels
    pub width: u32,
    /// The height of the image in pixels
    pub height: u32,
    /// One list of accumulated samples per pixel
    pub samples: Vec<Vec<T>>,
    /// The reconstruction filter used when the image is resolved
    pub filter: Filter,
}

impl<T> Buffer<T> {
    /// There is exactly one sample list per pixel.
    pub open spec fn wf(self) -> bool {
        self.samples@.len() == self.width as int * self.height as int
    }

    /// The index of pixel `(x, y)` in the row-major sample list.
    pub open spec fn pixel_index(self, x: u32, y: u32) -> int {
        y as int * self.width as int + x as int
    }

    /// The samples accumulated so far at pixel `(x, y)`.
    pub open spec fn pixel(self, x: u32, y: u32) -> Seq<T> {
        self.samples@[self.pixel_index(x, y)]@
    }

    /// A pixel's row-major index is within the sample list.
    proof fn lemma_pixel_index_in_bounds(self, x: u32, y: u32)
        requires
            self.wf(),
            x < self.width,
            y < self.height,
        ensures
            0 <= self.pixel_index(x, y) < self.samples@.len(),
    {
        let w = self.width as int;
        let h = self.height as int;
        let xi = x as int;
        let yi = y as int;
        assert(yi * w + xi < w * h) by (nonlinear_arith)
            requires
                0 <= xi < w,
                0 <= yi < h,
        ;
    }

    /// Construct a new buffer with a given width and height; every pixel
    /// starts with no samples.
    pub fn new(width: u32, height: u32, filter: Filter) -> (b: Buffer<T>)
        requires
            width as int * height as int <= usize::MAX as int,
        ensures
            b.wf(),
            b.width == width,
            b.height == height,
            b.filter == filter,
            forall|i: int| 0 <= i < b.samples@.len() ==> (#[trigger] b.samples@[i])@.len() == 0,
    {
        let count = (width as usize) * (height as usize);
        let mut samples: Vec<Vec<T>> = Vec::new();
        let mut k: usize = 0;
        while k < count
            invariant
                k <= count,
                samples@.len() == k,
                forall|i: int| 0 <= i < k ==> (#[trigger] samples@[i])@.len() == 0,
            decreases count - k,
        {
            samples.push(Vec::new());
            k = k + 1;
        }
        Buffer { width, height, samples, filter }
    }

    /// Add a sample to the buffer at pixel `(x, y)`: it is appended to
    /// that pixel's list and every other pixel is untouched.
    pub fn add_sample(&mut self, x: u32, y: u32, sample: T)
        requires
            old(self).wf(),
            x < old(self).width,
            y < old(self).height,
        ensures
            final(self).wf(),
            final(self).width == old(self).width,
            final(self).height == old(self).height,
            final(self).filter == old(self).filter,
            final(self).pixel(x, y) == old(self).pixel(x, y).push(sample),
            forall|i: int|
                0 <= i < old(self).samples@.len() && i != old(self).pixel_index(x, y)
                    ==> final(self).samples@[i] == old(self).samples@[i],
    {
        let count = self.samples.len();
        proof {
            self.lemma_pixel_index_in_bounds(x, y);
            assert(self.pixel_index(x, y) < count as int);
        }
        let index = (y as usize) * (self.width as usize) + (x as usize);
        self.samples[index].push(sample);
    }

    /// The samples accumulated at pixel `(x, y)`.
    pub fn pixel_samples(&self, x: u32, y: u32) -> (s: &Vec<T>)
        requires
            self.wf(),
            x < self.width,
            y < self.height,
        ensures
            s@ == self.pixel(x, y),
    {
        let count = self.samples.len();
        proof {
            self.lemma_pixel_index_in_bounds(x, y);
            assert(self.pixel_index(x, y) < count as int);
        }
        let index = (y as usize) * (self.width as usize) + (x as usize);
        &self.samples[index]
    }

    /// The inclusive pixel ranges `[x_lo, x_hi] × [y_lo, y_hi]` that the
    /// box filter averages for pixel `(x, y)`: all pixels within the
    /// filter radius of it, clipped at the image borders. The window
    /// always contains the pixel itself.
    pub fn window_bounds(&self, x: u32, y: u32) -> (r: (u32, u32, u32, u32))
        requires
            self.wf(),
            x < self.width,
            y < self.height,
            x as int + self.filter.radius() as int <= u32::MAX as int,
            y as int + self.filter.radius() as int <= u32::MAX as int,
        ensures
            r.0 <= x <= r.1 && r.1 < self.width,
            r.2 <= y <= r.3 && r.3 < self.height,
            r.0 as int == (if self.filter.radius() <= x {
                x as int - self.filter.radius() as int
            } else {
                0
            }),
            r.1 as int == (if x as int + self.filter.radius() as int <= self.width as int - 1 {
                x as int + self.filter.radius() as int
            } else {
                self.width as int - 1
            }),
            r.2 as int == (if self.filter.radius() <= y {
                y as int - self.filter.radius() as int
            } else {
                0
            }),
            r.3 as int == (if y as int + self.filter.radius() as int <= self.height as int - 1 {
                y as int + self.filter.radius() as int
            } else {
                self.height as int - 1
            }),
    {
        let radius = match self.filter {
            Filter::Box(radius) => radius,
        };
        let x_lo = if x >= radius {
            x - radius
        } else {
            0
        };
        let x_hi = if x + radius < self.width {
            x + radius
        } else {
            self.width - 1
        };
        let y_lo = if y >= radius {
            y - radius
        } else {
            0
        };
        let y_hi = if y + radius < self.height {
            y + radius
        } else {
            self.height - 1
        };
        (x_lo, x_hi, y_lo, y_hi)
    }
}

impl<T: Copy> Buffer<T> {
    /// Add one sample to every pixel, in row-major order: entry `i` of
    /// `values` is appended to the sample list of pixel `i`.
    pub fn add_samples(&mut self, values: &Vec<T>)
        requires
            old(self).wf(),
            values@.len() == old(self).samples@.len(),
        ensures
            final(self).wf(),
            final(self).width == old(self).width,
            final(self).height == old(self).height,
            final(self).filter == old(self).filter,
            final(self).samples@.len() == old(self).samples@.len(),
            forall|i: int|
                0 <= i < old(self).samples@.len() ==> (#[trigger] final(self).samples@[i])@
                    == old(self).samples@[i]@.push(values@[i]),
    {
        let count = values.len();
        let mut k: usize = 0;
        while k < count
            invariant
                k <= count,
                count == values@.len(),
                self.samples@.len() == old(self).samples@.len(),
                count == old(self).samples@.len(),
                self.width == old(self).width,
                self.height == old(self).height,
                self.filter == old(self).filter,
                forall|i: int|
                    0 <= i < k ==> (#[trigger] self.samples@[i])@ == old(self).samples@[i]@.push(
                        values@[i],
                    ),
                forall|i: int|
                    k <= i < count ==> #[trigger] self.samples@[i] == old(self).samples@[i],
            decreases count - k,
        {
            self.samples[k].push(values[k]);
            k = k + 1;
        }
    }
}

} // verus!
