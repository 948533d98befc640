//! Partition of the pixel grid into horizontal bands, one per worker.
//!
//! The scheduler splits the `height` rows of the output into consecutive
//! bands of `height / workers + 1` rows each (the rounding up is a policy
//! constant: it over-provisions so that `workers` bands always suffice, and
//! the final band is shorter when the division is not exact). The partition
//! is what makes lock-free concurrent rendering safe: every row — and hence
//! every byte of the row-major buffer — belongs to exactly one band, so no
//! two workers can ever reach the same index.

use vstd::prelude::*;
use vstd::arithmetic::div_mod::{
    lemma_fundamental_div_mod, lemma_mod_bound, lemma_div_is_ordered, lemma_div_multiples_vanish,
    lemma_div_pos_is_pos,
};
use vstd::arithmetic::mul::{
    lemma_mul_inequality, lemma_mul_is_distributive_add_other_way, lemma_mul_nonnegative,
};

verus! {

/// A contiguous run of whole rows `[top, top + height)` of the full grid.
#[derive(Clone, Copy, PartialEq, Eq, Structural, Debug)]
pub struct Band {
    pub top: usize,
    pub height: usize,
}

/// The nominal number of rows per band: `height / workers + 1`.
pub open spec fn rows_per_band_spec(height: int, workers: int) -> int {
    height / workers + 1
}

/// How many non-empty bands the plan holds: the full rows divided into runs
/// of `rpb`, rounded up.
pub open spec fn plan_len(height: int, rpb: int) -> int {
    if height <= 0 {
        0
    } else {
        (height - 1) / rpb + 1
    }
}

/// The band partition of `height` rows for `workers` workers: band `i` starts
/// at row `i * rpb` and runs for `rpb` rows, except that the final band stops
/// at the last row.
pub open spec fn band_plan(height: int, workers: int) -> Seq<Band> {
    let rpb = rows_per_band_spec(height, workers);
    Seq::new(
        plan_len(height, rpb) as nat,
        |i: int|
            Band {
                top: (i * rpb) as usize,
                height: (if i * rpb + rpb <= height {
                    rpb
                } else {
                    height - i * rpb
                }) as usize,
            },
    )
}

/// The nominal rows per band is at least one and at most one more than the
/// grid height.
proof fn lemma_rpb_bounds(height: int, workers: int)
    requires
        0 <= height,
        1 <= workers,
    ensures
        1 <= rows_per_band_spec(height, workers) <= height + 1,
{
    lemma_div_pos_is_pos(height, workers);
    assert(height / workers <= height) by (nonlinear_arith)
        requires
            0 <= height,
            1 <= workers,
    ;
}

/// Every band starts strictly inside the grid.
proof fn lemma_top_in_grid(height: int, rpb: int, i: int)
    requires
        1 <= rpb,
        0 <= i < plan_len(height, rpb),
    ensures
        i * rpb <= height - 1,
{
    lemma_fundamental_div_mod(height - 1, rpb);
    lemma_mod_bound(height - 1, rpb);
    lemma_mul_inequality(i, (height - 1) / rpb, rpb);
}

/// A row index `i * rpb` that has reached `height` lies beyond every band.
proof fn lemma_top_exhausts_grid(height: int, rpb: int, i: int)
    requires
        1 <= rpb,
        0 <= i,
        i * rpb >= height,
    ensures
        i >= plan_len(height, rpb),
{
    if height > 0 && i < plan_len(height, rpb) {
        lemma_top_in_grid(height, rpb, i);
    }
}

/// What one entry of the band plan holds: its starting row, its height, and
/// where it ends, all within the grid.
proof fn lemma_plan_entry(height: int, workers: int, k: int)
    requires
        0 <= height < usize::MAX,
        1 <= workers,
        0 <= k < band_plan(height, workers).len(),
    ensures
        ({
            let plan = band_plan(height, workers);
            let rpb = rows_per_band_spec(height, workers);
            &&& plan[k].top == k * rpb <= height - 1
            &&& 1 <= plan[k].height <= rpb
            &&& plan[k].top + plan[k].height == if (k + 1) * rpb <= height {
                (k + 1) * rpb
            } else {
                height as int
            }
            &&& plan[k].top + plan[k].height <= height
        }),
{
    let rpb = rows_per_band_spec(height, workers);
    lemma_rpb_bounds(height, workers);
    lemma_top_in_grid(height, rpb, k);
    lemma_mul_nonnegative(k, rpb);
    lemma_mul_is_distributive_add_other_way(rpb, k, 1);
}

/// The plan's final band ends exactly at the last row.
proof fn lemma_plan_end(height: int, rpb: int)
    requires
        1 <= height,
        1 <= rpb,
    ensures
        plan_len(height, rpb) * rpb >= height,
{
    let q = (height - 1) / rpb;
    lemma_fundamental_div_mod(height - 1, rpb);
    lemma_mod_bound(height - 1, rpb);
    lemma_mul_is_distributive_add_other_way(rpb, q, 1);
    assert((q + 1) * rpb == q * rpb + 1 * rpb);
    assert(q * rpb == rpb * q) by (nonlinear_arith);
    assert(rpb * q >= height - rpb);
}

/// The nominal rows per band for `height` rows shared by `workers` workers.
pub fn rows_per_band(height: usize, workers: usize) -> (r: usize)
    requires
        1 <= workers,
        height < usize::MAX,
    ensures
        r == rows_per_band_spec(height as int, workers as int),
{
    proof {
        lemma_rpb_bounds(height as int, workers as int);
    }
    height / workers + 1
}

/// Compute the band partition of `height` rows for `workers` workers.
///
/// The bands are consecutive, cover every row exactly once, and there are at
/// most `workers` of them; when the nominal run consumes all remaining rows
/// early, no further (empty) bands are produced.
pub fn plan_bands(height: usize, workers: usize) -> (bands: Vec<Band>)
    requires
        1 <= workers,
        height < usize::MAX,
    ensures
        bands@ == band_plan(height as int, workers as int),
{
    let ghost plan = band_plan(height as int, workers as int);
    let rpb = rows_per_band(height, workers);
    let mut bands: Vec<Band> = Vec::new();
    let mut i: usize = 0;
    let mut top: usize = 0;
    while top < height
        invariant
            1 <= rpb == rows_per_band_spec(height as int, workers as int),
            plan == band_plan(height as int, workers as int),
            i == bands@.len() <= plan.len(),
            bands@ == plan.take(i as int),
            top <= height,
            top == i * rpb || (top == height && i == plan.len()),
        decreases height - top,
    {
        proof {
            assert(top == i * rpb);
            lemma_div_is_ordered(i * rpb, height as int - 1, rpb as int);
            lemma_div_multiples_vanish(i as int, rpb as int);
            assert(i < plan.len());
        }
        let remaining = height - top;
        let hband = if remaining >= rpb {
            rpb
        } else {
            remaining
        };
        bands.push(Band { top, height: hband });
        proof {
            assert(plan[i as int] == Band { top, height: hband });
            assert(bands@ =~= plan.take(i + 1));
            lemma_mul_is_distributive_add_other_way(rpb as int, i as int, 1);
            if hband < rpb && i + 1 < plan.len() {
                lemma_top_in_grid(height as int, rpb as int, i + 1);
            }
        }
        top = top + hband;
        i = i + 1;
    }
    proof {
        if i < plan.len() {
            assert(top == i * rpb);
            lemma_top_exhausts_grid(height as int, rpb as int, i as int);
        }
        assert(bands@ =~= plan);
    }
    bands
}

/// The plan never needs more bands than there are workers: over-provisioning
/// the rows per band by one guarantees that `workers` bands cover every row.
pub proof fn lemma_plan_within_workers(height: int, workers: int)
    requires
        0 <= height,
        1 <= workers,
    ensures
        band_plan(height, workers).len() <= workers,
{
    let rpb = rows_per_band_spec(height, workers);
    lemma_rpb_bounds(height, workers);
    lemma_fundamental_div_mod(height, workers);
    lemma_mod_bound(height, workers);
    lemma_mul_is_distributive_add_other_way(workers, height / workers, 1);
    assert(workers * rpb >= height + 1);
    if height > 0 && plan_len(height, rpb) > workers {
        lemma_top_in_grid(height, rpb, workers);
        assert(workers * rpb <= height - 1);
        assert(false);
    }
}

/// The shape of a band plan: bands are non-empty, consecutive, start at row
/// zero and end at the last row of the grid.
pub proof fn lemma_plan_shape(height: int, workers: int)
    requires
        0 <= height < usize::MAX,
        1 <= workers,
    ensures
        ({
            let plan = band_plan(height, workers);
            &&& (plan.len() == 0 <==> height == 0)
            &&& (plan.len() > 0 ==> plan[0].top == 0)
            &&& (forall|k: int|
                0 <= k < plan.len() ==> 1 <= #[trigger] plan[k].height && plan[k].top
                    + plan[k].height <= height)
            &&& (forall|k: int|
                0 <= k < plan.len() - 1 ==> #[trigger] plan[k].top + plan[k].height == plan[k
                    + 1].top)
            &&& (plan.len() > 0 ==> plan[plan.len() - 1].top + plan[plan.len() - 1].height
                == height)
        }),
{
    let plan = band_plan(height, workers);
    let rpb = rows_per_band_spec(height, workers);
    lemma_rpb_bounds(height, workers);
    if height > 0 {
        lemma_div_pos_is_pos(height - 1, rpb);
    }
    assert forall|k: int| 0 <= k < plan.len() implies 1 <= #[trigger] plan[k].height && plan[k].top
        + plan[k].height <= height by {
        lemma_plan_entry(height, workers, k);
    }
    if plan.len() > 0 {
        lemma_plan_entry(height, workers, 0);
    }
    assert forall|k: int| 0 <= k < plan.len() - 1 implies #[trigger] plan[k].top + plan[k].height
        == plan[k + 1].top by {
        lemma_plan_entry(height, workers, k);
        lemma_plan_entry(height, workers, k + 1);
        lemma_top_in_grid(height, rpb, k + 1);
    }
    if plan.len() > 0 {
        let last = plan.len() - 1;
        lemma_plan_entry(height, workers, last);
        lemma_plan_end(height, rpb);
        assert(plan_len(height, rpb) * rpb == (last + 1) * rpb);
    }
}

/// No row lies in two distinct bands: an earlier band ends no later than a
/// later band begins.
pub proof fn lemma_bands_disjoint(height: int, workers: int, i: int, j: int)
    requires
        0 <= height < usize::MAX,
        1 <= workers,
        0 <= i < j < band_plan(height, workers).len(),
    ensures
        band_plan(height, workers)[i].top + band_plan(height, workers)[i].height <= band_plan(
            height,
            workers,
        )[j].top,
{
    let rpb = rows_per_band_spec(height, workers);
    lemma_plan_entry(height, workers, i);
    lemma_plan_entry(height, workers, j);
    lemma_mul_inequality(i + 1, j, rpb);
}

/// No byte of the row-major buffer is reachable from two distinct bands'
/// slices: the byte range of an earlier band, `width` bytes per row, ends no
/// later than the byte range of a later band begins.
pub proof fn lemma_band_slices_disjoint(height: int, workers: int, width: int, i: int, j: int)
    requires
        0 <= height < usize::MAX,
        0 <= width,
        1 <= workers,
        0 <= i < j < band_plan(height, workers).len(),
    ensures
        (band_plan(height, workers)[i].top + band_plan(height, workers)[i].height) * width
            <= band_plan(height, workers)[j].top * width,
{
    lemma_bands_disjoint(height, workers, i, j);
    lemma_mul_inequality(
        band_plan(height, workers)[i].top + band_plan(height, workers)[i].height,
        band_plan(height, workers)[j].top as int,
        width,
    );
}

/// Every row of the grid lies in exactly one band of the plan — the
/// invariant that makes handing each band to its own worker safe.
pub proof fn lemma_bands_cover(height: int, workers: int, row: int)
    requires
        height < usize::MAX,
        1 <= workers,
        0 <= row < height,
    ensures
        ({
            let plan = band_plan(height, workers);
            let i = row / rows_per_band_spec(height, workers);
            &&& 0 <= i < plan.len()
            &&& plan[i].top <= row < plan[i].top + plan[i].height
            &&& forall|j: int|
                0 <= j < plan.len() && j != i ==> !(#[trigger] plan[j].top <= row < plan[j].top
                    + plan[j].height)
        }),
{
    let plan = band_plan(height, workers);
    let rpb = rows_per_band_spec(height, workers);
    lemma_rpb_bounds(height, workers);
    let i = row / rpb;
    lemma_fundamental_div_mod(row, rpb);
    lemma_mod_bound(row, rpb);
    lemma_div_pos_is_pos(row, rpb);
    assert(i * rpb <= row < i * rpb + rpb);
    lemma_div_is_ordered(row, height - 1, rpb);
    assert(i < plan.len());
    lemma_plan_entry(height, workers, i);
    lemma_mul_is_distributive_add_other_way(rpb, i, 1);
    assert(plan[i].top <= row < plan[i].top + plan[i].height);
    assert forall|j: int|
        0 <= j < plan.len() && j != i implies !(#[trigger] plan[j].top <= row < plan[j].top
        + plan[j].height) by {
        lemma_plan_entry(height, workers, j);
        if j < i {
            lemma_mul_inequality(j + 1, i, rpb);
        } else {
            lemma_mul_inequality(i + 1, j, rpb);
        }
    }
}

} // verus!

