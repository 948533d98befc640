//! Filling the pixel buffer: shading escape outcomes and assembling bands.
//!
//! Each pixel is one byte: black for a point inside the set, and for an
//! escaped point `255 - min(count, 255)`, so that points escaping quickly are
//! bright and points near the boundary fade toward black. The assembly walks
//! the band plan exactly as the concurrent scheduler hands bands to workers,
//! and its contract shows the partition leaves no pixel unwritten and no
//! pixel written twice.

use vstd::prelude::*;
use vstd::arithmetic::mul::lemma_mul_inequality;
use vstd::pervasive::VecAdditionalExecFns;
use crate::Bounds;
use crate::bands::{band_plan, plan_bands, lemma_plan_shape};
use crate::escape::EscapeResult;

verus! {

/// The gray value owed for one escape outcome.
pub open spec fn shade_spec(r: EscapeResult) -> u8 {
    match r {
        EscapeResult::Inside => 0u8,
        EscapeResult::Escaped(n) => if n < 255 {
            (255 - n) as u8
        } else {
            0u8
        },
    }
}

/// Shade one pixel: `0` for a point that did not escape, else
/// `255 - min(count, 255)`.
pub fn pixel_shade(r: EscapeResult) -> (b: u8)
    ensures
        b == shade_spec(r),
{
    match r {
        EscapeResult::Inside => 0,
        EscapeResult::Escaped(n) => {
            if n < 255 {
                255 - (n as u8)
            } else {
                0
            }
        },
    }
}

/// The row-major buffer index of pixel `(col, row)` of a grid, and the fact
/// that it stays inside the buffer.
pub fn pixel_index(bounds: &Bounds, col: usize, row: usize) -> (i: usize)
    requires
        col < bounds.width,
        row < bounds.height,
        bounds.area() <= usize::MAX,
    ensures
        i == row * bounds.width + col,
        i < bounds.area(),
{
    proof {
        lemma_mul_inequality(row + 1, bounds.height as int, bounds.width as int);
        assert((row + 1) * bounds.width == row * bounds.width + bounds.width) by (nonlinear_arith);
    }
    row * bounds.width + col
}

/// Shade every pixel of one contiguous run `[start, end)` of the buffer in
/// place, leaving everything outside the run untouched.
pub fn render_run(
    pixels: &mut Vec<u8>,
    results: &Vec<EscapeResult>,
    start: usize,
    end: usize,
)
    requires
        start <= end <= old(pixels)@.len(),
        old(pixels)@.len() == results@.len(),
    ensures
        final(pixels)@.len() == old(pixels)@.len(),
        forall|i: int| start <= i < end ==> final(pixels)@[i] == shade_spec(results@[i]),
        forall|i: int|
            0 <= i < old(pixels)@.len() && !(start <= i < end) ==> final(pixels)@[i] == old(
                pixels,
            )@[i],
{
    let mut j: usize = start;
    while j < end
        invariant
            start <= j <= end <= pixels@.len(),
            pixels@.len() == old(pixels)@.len() == results@.len(),
            forall|i: int| start <= i < j ==> pixels@[i] == shade_spec(results@[i]),
            forall|i: int|
                0 <= i < pixels@.len() && !(start <= i < j) ==> pixels@[i] == old(pixels)@[i],
        decreases end - j,
    {
        let shade = pixel_shade(results[j]);
        pixels.set(j, shade);
        j = j + 1;
    }
}

/// Render the whole grid from per-pixel escape outcomes, band by band, as the
/// concurrent scheduler partitions it for `workers` workers.
///
/// The result is the pointwise shading of `results`, whatever the worker
/// count: the partition never changes a single byte.
pub fn render_bands(results: &Vec<EscapeResult>, bounds: Bounds, workers: usize) -> (pixels: Vec<
    u8,
>)
    requires
        1 <= workers,
        bounds.height < usize::MAX,
        results@.len() == bounds.area(),
    ensures
        pixels@.len() == results@.len(),
        forall|i: int| 0 <= i < results@.len() ==> pixels@[i] == shade_spec(results@[i]),
{
    let w = bounds.width;
    let h = bounds.height;
    let total = results.len();
    let bands = plan_bands(h, workers);
    let ghost plan = band_plan(h as int, workers as int);
    proof {
        lemma_plan_shape(h as int, workers as int);
    }
    let mut pixels: Vec<u8> = vec![0u8; total];
    let mut k: usize = 0;
    while k < bands.len()
        invariant
            bands@ == plan,
            total == results@.len() == w * h,
            pixels@.len() == total,
            k <= plan.len(),
            plan.len() == 0 ==> h == 0,
            plan.len() > 0 ==> plan[0].top == 0,
            forall|m: int|
                0 <= m < plan.len() ==> 1 <= #[trigger] plan[m].height && plan[m].top
                    + plan[m].height <= h,
            forall|m: int|
                0 <= m < plan.len() - 1 ==> #[trigger] plan[m].top + plan[m].height == plan[m
                    + 1].top,
            plan.len() > 0 ==> plan[plan.len() - 1].top + plan[plan.len() - 1].height == h,
            forall|i: int|
                0 <= i < (if k == 0 {
                    0int
                } else {
                    (plan[k - 1].top + plan[k - 1].height) * w
                }) ==> pixels@[i] == shade_spec(results@[i]),
        decreases bands@.len() - k,
    {
        let band = bands[k];
        proof {
            lemma_mul_inequality(band.top as int, h as int, w as int);
            lemma_mul_inequality(band.top + band.height, h as int, w as int);
            lemma_mul_inequality(band.top as int, band.top + band.height, w as int);
        }
        let start = band.top * w;
        let end = (band.top + band.height) * w;
        proof {
            if k == 0 {
                assert(start == 0);
            } else {
                assert(plan[k - 1].top + plan[k - 1].height == band.top);
                assert((plan[k - 1].top + plan[k - 1].height) * w == start);
            }
        }
        render_run(&mut pixels, results, start, end);
        k = k + 1;
    }
    proof {
        if plan.len() == 0 {
            assert(h == 0);
            assert(total == w * 0);
        } else {
            assert((plan[plan.len() - 1].top + plan[plan.len() - 1].height) * w == h * w);
        }
    }
    pixels
}

/// Rendering the same escape outcomes under any two band partitions gives
/// byte-for-byte identical buffers: both are the pointwise shading of the
/// outcomes, so the choice of worker count never changes the image.
pub proof fn lemma_render_workers_agree(results: Seq<EscapeResult>, a: Seq<u8>, b: Seq<u8>)
    requires
        a.len() == results.len(),
        b.len() == results.len(),
        forall|i: int| 0 <= i < results.len() ==> a[i] == shade_spec(results[i]),
        forall|i: int| 0 <= i < results.len() ==> b[i] == shade_spec(results[i]),
    ensures
        a == b,
{
    assert(a =~= b);
}

} // verus!
