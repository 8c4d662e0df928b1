//! Partition of an image into horizontal bands of whole rows, one per worker.

use vstd::arithmetic::div_mod::{lemma_fundamental_div_mod, lemma_fundamental_div_mod_converse};
use vstd::prelude::*;

verus! {

/// A contiguous run of whole rows of an image: rows `top .. top + rows`.
#[derive(Clone, Copy, Debug, PartialEq, Eq, Structural)]
pub struct Band {
    pub top: usize,
    pub rows: usize,
}

impl Band {
    /// Pixel (column, row) of the band's upper-left corner in the full image.
    pub fn upper_left_pixel(&self) -> (r: (usize, usize))
        ensures
            r == (0usize, self.top),
    {
        (0, self.top)
    }

    /// Pixel (column, row) just past the band's lower-right corner in an
    /// image `width` pixels wide: the column after the last one, on the row
    /// after the band's last row.
    pub fn lower_right_pixel(&self, width: usize) -> (r: (usize, usize))
        requires
            self.top + self.rows <= usize::MAX,
        ensures
            r == (width, (self.top + self.rows) as usize),
    {
        (width, self.top + self.rows)
    }

    /// Width and height in pixels of the band's part of an image `width`
    /// pixels wide.
    pub fn bounds(&self, width: usize) -> (r: (usize, usize))
        ensures
            r == (width, self.rows),
    {
        (width, self.rows)
    }
}

/// Rows in each band but the last: the height divided by the number of
/// workers, rounded up, so that no more bands than workers are needed.
pub open spec fn band_rows(height: nat, workers: nat) -> nat
    recommends
        workers > 0,
{
    if height % workers == 0 {
        height / workers
    } else {
        height / workers + 1
    }
}

/// Number of bands that cover `height` rows, `per_band` rows at a time.
pub open spec fn band_count(height: nat, per_band: nat) -> nat
    recommends
        per_band > 0,
{
    if per_band == 0 {
        0
    } else if height % per_band == 0 {
        height / per_band
    } else {
        height / per_band + 1
    }
}

/// Band number `b` of the partition of `height` rows into bands of
/// `per_band` rows, the last one cut at the bottom of the image.
pub open spec fn band_at(height: nat, per_band: nat, b: int) -> Band {
    let top = b * per_band;
    Band {
        top: top as usize,
        rows: (if height - top < per_band { height - top } else { per_band as int }) as usize,
    }
}

/// The bands, top to bottom, that `workers` workers render for an image of
/// `height` rows.
pub open spec fn band_plan(height: nat, workers: nat) -> Seq<Band> {
    let per_band = band_rows(height, workers);
    Seq::new(band_count(height, per_band), |b: int| band_at(height, per_band, b))
}

/// Number of the band that holds image row `row`.
pub open spec fn band_of_row(height: nat, workers: nat, row: int) -> int {
    row / (band_rows(height, workers) as int)
}

/// `band` covers image row `row`.
pub open spec fn band_holds_row(band: Band, row: int) -> bool {
    band.top <= row < band.top + band.rows
}

/// With `per_band > 0`, band number `b >= 0` exists exactly when it starts
/// above the bottom of the image.
proof fn lemma_band_exists(height: nat, per_band: nat, b: int)
    requires
        per_band > 0,
        0 <= b,
    ensures
        b < band_count(height, per_band) <==> b * per_band < height,
{
    let q = height / per_band;
    let r = height % per_band;
    lemma_fundamental_div_mod(height as int, per_band as int);
    assert(height == q * per_band + r) by (nonlinear_arith)
        requires
            height == per_band * q + r,
    ;
    assert(0 <= r < per_band);
    assert(b < q ==> b * per_band < height) by (nonlinear_arith)
        requires
            height == q * per_band + r,
            0 <= r,
            per_band > 0,
            0 <= b,
    ;
    assert(b >= q + 1 ==> b * per_band >= height) by (nonlinear_arith)
        requires
            height == q * per_band + r,
            r < per_band,
            per_band > 0,
    ;
    assert(b == q ==> b * per_band == height - r) by (nonlinear_arith)
        requires
            height == q * per_band + r,
    ;
}

/// Bands of `band_rows(height, workers)` rows are at most `workers` in number.
proof fn lemma_band_count_bounded(height: nat, workers: nat)
    requires
        workers > 0,
        height > 0,
    ensures
        band_rows(height, workers) > 0,
        band_count(height, band_rows(height, workers)) <= workers,
{
    let per_band = band_rows(height, workers);
    let q = height / workers;
    let r = height % workers;
    lemma_fundamental_div_mod(height as int, workers as int);
    assert(workers * per_band >= height && per_band > 0) by (nonlinear_arith)
        requires
            height == workers * q + r,
            0 <= r < workers,
            height > 0,
            per_band == (if r == 0 { q } else { q + 1 }),
    ;
    lemma_band_exists(height, per_band, workers as int);
}

/// Rows in each band but the last, for `workers` workers sharing an image of
/// `height` rows.
pub fn rows_per_band(height: usize, workers: usize) -> (r: usize)
    requires
        workers > 0,
    ensures
        r == band_rows(height as nat, workers as nat),
{
    let q = height / workers;
    if height % workers == 0 {
        q
    } else {
        assert(q < usize::MAX) by (nonlinear_arith)
            requires
                q == height / workers,
                height % workers != 0,
                workers > 0,
                height <= usize::MAX,
        ;
        q + 1
    }
}

/// Splits an image of `height` rows into horizontal bands for `workers`
/// workers: bands of `rows_per_band(height, workers)` rows from the top down,
/// the last one shorter where the height does not divide evenly.
pub fn plan_bands(height: usize, workers: usize) -> (bands: Vec<Band>)
    requires
        workers > 0,
    ensures
        bands@ == band_plan(height as nat, workers as nat),
        bands@.len() <= workers,
{
    let per_band = rows_per_band(height, workers);
    let ghost count = band_count(height as nat, per_band as nat);
    proof {
        if height == 0 {
            vstd::arithmetic::div_mod::lemma_div_basics(workers as int);
            vstd::arithmetic::div_mod::lemma_small_mod(0, workers as nat);
            assert(per_band == 0);
        } else {
            lemma_band_count_bounded(height as nat, workers as nat);
        }
    }
    let mut bands: Vec<Band> = Vec::new();
    let mut top: usize = 0;
    assert(bands.len() == 0);
    assert(0 * per_band == 0);
    while top < height
        invariant
            per_band == band_rows(height as nat, workers as nat),
            count == band_count(height as nat, per_band as nat),
            height > 0 ==> per_band > 0,
            (bands.len() * per_band < height && top == bands.len() * per_band) || (top == height
                && bands.len() == count),
            bands@ =~= Seq::new(bands.len() as nat, |b: int| band_at(height as nat, per_band as nat, b)),
        decreases height - top,
    {
        let rows = if height - top < per_band {
            height - top
        } else {
            per_band
        };
        let ghost len = bands.len();
        proof {
            lemma_band_exists(height as nat, per_band as nat, len as int);
            lemma_band_exists(height as nat, per_band as nat, len + 1);
            assert((len + 1) * per_band == len * per_band + per_band) by (nonlinear_arith);
        }
        bands.push(Band { top, rows });
        top = top + rows;
    }
    proof {
        if height > 0 {
            lemma_band_count_bounded(height as nat, workers as nat);
        }
    }
    bands
}

/// Band number `b` of the plan, where it exists, starts at row
/// `b * per_band` and holds at least one row and at most `per_band`.
proof fn lemma_band_shape(height: usize, per_band: nat, b: int)
    requires
        per_band > 0,
        0 <= b < band_count(height as nat, per_band),
    ensures
        band_at(height as nat, per_band, b).top == b * per_band,
        0 < band_at(height as nat, per_band, b).rows <= per_band,
        band_at(height as nat, per_band, b).top + band_at(height as nat, per_band, b).rows
            <= height,
        band_at(height as nat, per_band, b).top + band_at(height as nat, per_band, b).rows
            == height || band_at(height as nat, per_band, b).rows == per_band,
{
    lemma_band_exists(height as nat, per_band, b);
    assert(0 <= b * per_band) by (nonlinear_arith)
        requires
            0 <= b,
            per_band > 0,
    ;
}

/// The bands that `workers` workers render cover every row of an image of
/// `height` rows exactly once, whether or not the height divides evenly:
/// no band is empty, each row lies in exactly one band (band number
/// `row / band_rows(height, workers)`), no band reaches below the image, and
/// the bands follow one another from the top row to the bottom one with no
/// gap. There are never more bands than workers.
pub proof fn lemma_bands_partition_rows(height: usize, workers: usize)
    requires
        workers > 0,
    ensures
        band_plan(height as nat, workers as nat).len() <= workers,
        forall|b: int|
            0 <= b < band_plan(height as nat, workers as nat).len() ==> #[trigger] band_plan(
                height as nat,
                workers as nat,
            )[b].rows > 0,
        forall|b: int, row: int|
            0 <= b < band_plan(height as nat, workers as nat).len() && 0 <= row ==> (
            #[trigger] band_holds_row(band_plan(height as nat, workers as nat)[b], row) <==> (
            row < height && b == band_of_row(height as nat, workers as nat, row))),
        forall|row: int|
            0 <= row < height ==> 0 <= #[trigger] band_of_row(height as nat, workers as nat, row)
                < band_plan(height as nat, workers as nat).len() && band_holds_row(
                band_plan(height as nat, workers as nat)[band_of_row(
                    height as nat,
                    workers as nat,
                    row,
                )],
                row,
            ),
        band_plan(height as nat, workers as nat).len() > 0 ==> band_plan(
            height as nat,
            workers as nat,
        )[0].top == 0,
        band_plan(height as nat, workers as nat).len() > 0 ==> band_plan(
            height as nat,
            workers as nat,
        ).last().top + band_plan(height as nat, workers as nat).last().rows == height,
        forall|b: int|
            0 <= b < band_plan(height as nat, workers as nat).len() - 1 ==> band_plan(
                height as nat,
                workers as nat,
            )[b + 1].top == #[trigger] band_plan(height as nat, workers as nat)[b].top
                + band_plan(height as nat, workers as nat)[b].rows,
{
    let plan = band_plan(height as nat, workers as nat);
    let per_band = band_rows(height as nat, workers as nat);
    let count = plan.len();
    if height == 0 {
        vstd::arithmetic::div_mod::lemma_div_basics(workers as int);
        vstd::arithmetic::div_mod::lemma_small_mod(0, workers as nat);
        assert(count == 0);
        return;
    }
    lemma_band_count_bounded(height as nat, workers as nat);
    assert forall|b: int| 0 <= b < count implies #[trigger] plan[b].rows > 0 by {
        lemma_band_shape(height, per_band, b);
    }
    assert forall|b: int, row: int| 0 <= b < count && 0 <= row implies (#[trigger] band_holds_row(
        plan[b],
        row,
    ) <==> (row < height && b == row / (per_band as int))) by {
        lemma_band_shape(height, per_band, b);
        if band_holds_row(plan[b], row) {
            lemma_fundamental_div_mod_converse(row, per_band as int, b, row - b * per_band);
        }
        if row < height && b == row / (per_band as int) {
            lemma_fundamental_div_mod(row, per_band as int);
            assert(b * per_band <= row < b * per_band + per_band) by (nonlinear_arith)
                requires
                    row == per_band * (row / (per_band as int)) + row % (per_band as int),
                    0 <= row % (per_band as int) < per_band,
                    b == row / (per_band as int),
            ;
        }
    }
    assert forall|row: int| 0 <= row < height implies 0 <= #[trigger] band_of_row(
        height as nat,
        workers as nat,
        row,
    ) < count && band_holds_row(plan[band_of_row(height as nat, workers as nat, row)], row) by {
        let b = row / (per_band as int);
        lemma_fundamental_div_mod(row, per_band as int);
        assert(0 <= b && b * per_band <= row < b * per_band + per_band) by (nonlinear_arith)
            requires
                row == per_band * (row / (per_band as int)) + row % (per_band as int),
                0 <= row % (per_band as int) < per_band,
                b == row / (per_band as int),
                0 <= row,
                per_band > 0,
        ;
        lemma_band_exists(height as nat, per_band, b);
        lemma_band_shape(height, per_band, b);
        assert(band_holds_row(plan[b], row));
    }
    assert forall|b: int| 0 <= b < count - 1 implies plan[b + 1].top == #[trigger] plan[b].top
        + plan[b].rows by {
        lemma_band_shape(height, per_band, b);
        lemma_band_shape(height, per_band, b + 1);
        assert((b + 1) * per_band == b * per_band + per_band) by (nonlinear_arith);
    }
    if count > 0 {
        lemma_band_shape(height, per_band, 0);
        lemma_band_shape(height, per_band, count - 1);
        lemma_band_exists(height as nat, per_band, count as int);
        assert(count * per_band == (count - 1) * per_band + per_band) by (nonlinear_arith);
    }
}

/// In a row-major buffer `width` pixels wide, a band owns the positions
/// `top * width .. (top + rows) * width`: a position lies in that range
/// exactly when its row lies in the band. With the row partition above,
/// every position of the buffer lies in the range of exactly one band.
pub proof fn lemma_band_owns_buffer_range(band: Band, width: usize, index: int)
    requires
        width > 0,
        0 <= index,
    ensures
        (band.top * width <= index < (band.top + band.rows) * width) <==> band_holds_row(
            band,
            index / (width as int),
        ),
{
    let q = index / (width as int);
    let r = index % (width as int);
    lemma_fundamental_div_mod(index, width as int);
    let top = band.top as int;
    let end = band.top + band.rows;
    assert(top * width <= index <==> top <= q) by (nonlinear_arith)
        requires
            index == width * q + r,
            0 <= r < width,
    ;
    assert(index < end * width <==> q < end) by (nonlinear_arith)
        requires
            index == width * q + r,
            0 <= r < width,
    ;
}

} // verus!
