//! The renderer's exact bookkeeping: image dimensions, sampling counts,
//! the mapping from pixels to normalized screen coordinates, and the
//! schedule of the progressive render loop. Casting rays, tracing paths and
//! accumulating radiance are floating-point and belong to the application
//! layer, which wraps these settings together with a scene and a camera.

use vstd::prelude::*;
use crate::buffer::Filter;

verus! {

/// The integer settings of a render: output size, bounce and sample
/// counts, and the reconstruction filter, with builder-style setters.
#[derive(Clone, Copy, Debug, PartialEq, Eq, Structural)]
pub struct RenderSettings {
    /// The width of the output image
    pub width: u32,
    /// The height of the output image
    pub height: u32,
    /// The maximum number of ray bounces
    pub max_bounces: u32,
    /// Number of random paths traced per pixel
    pub num_samples: u32,
    /// Optional noise-reduction filter
    pub filter: Filter,
}

impl Default for RenderSettings {
    /// The settings a renderer starts from: an 800 x 600 image, direct
    /// lighting only, one sample per pixel, and no filtering.
    fn default() -> (r: Self)
        ensures
            r.width == 800u32,
            r.height == 600u32,
            r.max_bounces == 0u32,
            r.num_samples == 1u32,
            r.filter == Filter::Box(0u32),
    {
        RenderSettings {
            width: 800,
            height: 600,
            max_bounces: 0,
            num_samples: 1,
            filter: Filter::Box(0),
        }
    }
}

impl RenderSettings {
    /// Set the width of the rendered scene.
    pub fn width(self, width: u32) -> (r: Self)
        ensures
            r == (RenderSettings { width, ..self }),
    {
        RenderSettings { width, ..self }
    }

    /// Set the height of the rendered scene.
    pub fn height(self, height: u32) -> (r: Self)
        ensures
            r == (RenderSettings { height, ..self }),
    {
        RenderSettings { height, ..self }
    }

    /// Set the maximum number of ray bounces when a ray is traced.
    pub fn max_bounces(self, max_bounces: u32) -> (r: Self)
        ensures
            r == (RenderSettings { max_bounces, ..self }),
    {
        RenderSettings { max_bounces, ..self }
    }

    /// Set the number of random paths traced per pixel.
    pub fn num_samples(self, num_samples: u32) -> (r: Self)
        ensures
            r == (RenderSettings { num_samples, ..self }),
    {
        RenderSettings { num_samples, ..self }
    }

    /// Set the noise reduction filter.
    pub fn filter(self, filter: Filter) -> (r: Self)
        ensures
            r == (RenderSettings { filter, ..self }),
    {
        RenderSettings { filter, ..self }
    }

    /// The longer image dimension: screen coordinates are normalized so
    /// that this direction spans exactly two units.
    pub open spec fn spec_screen_scale(self) -> u32 {
        if self.width >= self.height {
            self.width
        } else {
            self.height
        }
    }

    /// The numerators of the normalized screen coordinates of pixel
    /// `(x, y)`: the point `((2x + 1) - width, (2(height - y) - 1) - height)`
    /// over the longer dimension places pixel centers in the `[-1, 1]`
    /// square, `y` counted downward from the top of the image. The
    /// division itself is left to the caller's floating-point camera.
    pub fn screen_numerators(&self, x: u32, y: u32) -> (r: (i64, i64, u32))
        requires
            x < self.width,
            y < self.height,
        ensures
            r.0 == 2 * x as int + 1 - self.width as int,
            r.1 == 2 * (self.height as int - y as int) - 1 - self.height as int,
            r.2 == self.spec_screen_scale(),
            -(r.2 as int) < r.0 < r.2 as int,
            -(r.2 as int) < r.1 < r.2 as int,
    {
        let nx = 2 * (x as i64) + 1 - (self.width as i64);
        let ny = 2 * ((self.height as i64) - (y as i64)) - 1 - (self.height as i64);
        let dim = if self.width >= self.height {
            self.width
        } else {
            self.height
        };
        (nx, ny, dim)
    }
}

/// How many samples each pass of a progressive render computes: full
/// passes of `interval` samples, then one shorter pass for the rest. The
/// passes sum to exactly `num_samples`, which is what makes rendering in
/// passes accumulate the same number of samples per pixel as rendering in
/// one piece.
pub open spec fn spec_schedule(num_samples: u32, interval: u32) -> Seq<u32>
    decreases num_samples,
    when interval >= 1
{
    if num_samples == 0 {
        Seq::empty()
    } else if num_samples <= interval {
        seq![num_samples]
    } else {
        seq![interval] + spec_schedule((num_samples - interval) as u32, interval)
    }
}

/// The total number of samples in a schedule.
pub open spec fn schedule_total(s: Seq<u32>) -> int
    decreases s.len(),
{
    if s.len() == 0 {
        0
    } else {
        s[0] + schedule_total(s.drop_first())
    }
}

/// A schedule's passes add up to exactly the requested sample count.
pub proof fn lemma_schedule_total(num_samples: u32, interval: u32)
    requires
        interval >= 1,
    ensures
        schedule_total(spec_schedule(num_samples, interval)) == num_samples,
    decreases num_samples,
{
    if num_samples == 0 {
    } else if num_samples <= interval {
        assert(spec_schedule(num_samples, interval).drop_first() =~= Seq::<u32>::empty());
        assert(schedule_total(Seq::<u32>::empty()) == 0);
    } else {
        lemma_schedule_total((num_samples - interval) as u32, interval);
        assert(spec_schedule(num_samples, interval).drop_first() =~= spec_schedule(
            (num_samples - interval) as u32,
            interval,
        ));
    }
}

/// Compute the pass sizes of a progressive render that calls back to the
/// caller after every `interval` samples.
pub fn sample_schedule(num_samples: u32, interval: u32) -> (r: Vec<u32>)
    requires
        interval >= 1,
    ensures
        r@ == spec_schedule(num_samples, interval),
        schedule_total(r@) == num_samples,
{
    let mut passes: Vec<u32> = Vec::new();
    let mut remaining = num_samples;
    while remaining > 0
        invariant
            interval >= 1,
            passes@ + spec_schedule(remaining, interval) =~= spec_schedule(
                num_samples,
                interval,
            ),
        decreases remaining,
    {
        let step = if remaining < interval {
            remaining
        } else {
            interval
        };
        passes.push(step);
        proof {
            if remaining <= interval {
                assert(passes@ + spec_schedule(0u32, interval) =~= spec_schedule(
                    num_samples,
                    interval,
                ));
            } else {
                assert(passes@ + spec_schedule((remaining - interval) as u32, interval)
                    =~= spec_schedule(num_samples, interval));
            }
        }
        remaining = remaining - step;
    }
    proof {
        assert(passes@ + spec_schedule(0u32, interval) =~= passes@);
        lemma_schedule_total(num_samples, interval);
    }
    passes
}

} // verus!
