//! Row-major rasterization of a pixel buffer from a per-pixel escape evaluator.

use vstd::arithmetic::div_mod::lemma_fundamental_div_mod_converse;
use vstd::prelude::*;

verus! {

/// Number of iterations after which a point is taken not to escape.
/// Escape counts stay below it, so every intensity fits one byte.
pub const ESCAPE_LIMIT: usize = 255;

/// An escape result that the intensity rule accepts: either "bounded", or
/// an escape at an iteration below the limit.
pub open spec fn escape_in_range(escape: Option<usize>) -> bool {
    match escape {
        Some(count) => count < ESCAPE_LIMIT,
        None => true,
    }
}

/// Intensity of a pixel: `255 - count` for a point that escaped at
/// iteration `count`, and black for one that never escaped.
pub open spec fn intensity(escape: Option<usize>) -> u8
    recommends
        escape_in_range(escape),
{
    match escape {
        Some(count) => (255 - count) as u8,
        None => 0,
    }
}

/// Maps an escape result to the pixel's intensity.
pub fn shade(escape: Option<usize>) -> (r: u8)
    requires
        escape_in_range(escape),
    ensures
        r == intensity(escape),
{
    match escape {
        Some(count) => 255 - count as u8,
        None => 0,
    }
}

/// The value at row-major position `index` of a buffer `width` pixels wide
/// is the intensity of one possible result of the evaluator at that pixel's
/// (column, row).
pub open spec fn pixel_rendered<F: Fn(usize, usize) -> Option<usize>>(
    escape_at: F,
    width: usize,
    index: int,
    value: u8,
) -> bool {
    exists|out: Option<usize>|
        #[trigger] escape_at.ensures(((index % width as int) as usize, (index / width as int) as usize), out)
            && value == intensity(out)
}

/// The evaluator gives at most one result for each pixel.
pub open spec fn evaluator_is_deterministic<F: Fn(usize, usize) -> Option<usize>>(
    escape_at: F,
) -> bool {
    forall|at: (usize, usize), a: Option<usize>, b: Option<usize>|
        #[trigger] escape_at.ensures(at, a) && #[trigger] escape_at.ensures(at, b) ==> a == b
}

/// Every position of `pixels` holds the rendered value of its pixel.
pub open spec fn buffer_rendered<F: Fn(usize, usize) -> Option<usize>>(
    escape_at: F,
    width: usize,
    pixels: Seq<u8>,
) -> bool {
    forall|i: int| 0 <= i < pixels.len() ==> pixel_rendered(escape_at, width, i, #[trigger] pixels[i])
}

/// Position of pixel (`col`, `row`) in a row-major buffer `width` pixels wide.
pub open spec fn pixel_index(width: usize, col: int, row: int) -> int {
    row * width + col
}

/// The row-major index of (`col`, `row`) leads back to that column and row.
pub proof fn lemma_pixel_index_inverse(width: usize, col: int, row: int)
    requires
        0 <= col < width,
        0 <= row,
    ensures
        pixel_index(width, col, row) % (width as int) == col,
        pixel_index(width, col, row) / (width as int) == row,
{
    lemma_fundamental_div_mod_converse(pixel_index(width, col, row), width as int, row, col);
}

/// Fills a row-major buffer of `bounds.0` columns and `bounds.1` rows: the
/// pixel at (column, row) gets the intensity of `escape_at(column, row)`.
/// Every position of the buffer is written, row by row, each exactly once.
pub fn render<F: Fn(usize, usize) -> Option<usize>>(
    pixels: &mut [u8],
    bounds: (usize, usize),
    escape_at: F,
)
    requires
        old(pixels)@.len() == bounds.0 * bounds.1,
        forall|col: usize, row: usize|
            col < bounds.0 && row < bounds.1 ==> #[trigger] escape_at.requires((col, row)),
        forall|col: usize, row: usize, out: Option<usize>|
            #[trigger] escape_at.ensures((col, row), out) ==> escape_in_range(out),
    ensures
        final(pixels)@.len() == old(pixels)@.len(),
        buffer_rendered(escape_at, bounds.0, final(pixels)@),
{
    let (width, height) = bounds;
    let total = pixels.len();
    assert(total == width * height);
    let mut row: usize = 0;
    while row < height
        invariant
            pixels@.len() == width * height,
            total == width * height,
            row <= height,
            forall|col: usize, row: usize|
                col < width && row < height ==> #[trigger] escape_at.requires((col, row)),
            forall|col: usize, row: usize, out: Option<usize>|
                #[trigger] escape_at.ensures((col, row), out) ==> escape_in_range(out),
            forall|i: int|
                0 <= i < row * width ==> pixel_rendered(escape_at, width, i, #[trigger] pixels@[i]),
        decreases height - row,
    {
        let mut col: usize = 0;
        while col < width
            invariant
                pixels@.len() == width * height,
                total == width * height,
                row < height,
                col <= width,
                forall|col: usize, row: usize|
                    col < width && row < height ==> #[trigger] escape_at.requires((col, row)),
                forall|col: usize, row: usize, out: Option<usize>|
                    #[trigger] escape_at.ensures((col, row), out) ==> escape_in_range(out),
                forall|i: int|
                    0 <= i < row * width + col ==> pixel_rendered(
                        escape_at,
                        width,
                        i,
                        #[trigger] pixels@[i],
                    ),
            decreases width - col,
        {
            assert(row * width + col < width * height) by (nonlinear_arith)
                requires
                    row < height,
                    col < width,
            ;
            let index = row * width + col;
            let escape = escape_at(col, row);
            let value = shade(escape);
            pixels[index] = value;
            proof {
                lemma_pixel_index_inverse(width, col as int, row as int);
                let at = (((index as int) % (width as int)) as usize, ((index as int) / (
                width as int)) as usize);
                assert(at == (col, row));
                assert(escape_at.ensures(at, escape));
                assert(pixel_rendered(escape_at, width, index as int, value));
            }
            col = col + 1;
        }
        assert((row + 1) * width == row * width + width) by (nonlinear_arith);
        row = row + 1;
    }
}

/// Rendering is deterministic: with an evaluator that gives one result per
/// pixel, two buffers of the same size that are both rendered from it are
/// identical, byte for byte.
pub proof fn lemma_render_deterministic<F: Fn(usize, usize) -> Option<usize>>(
    escape_at: F,
    width: usize,
    first: Seq<u8>,
    second: Seq<u8>,
)
    requires
        evaluator_is_deterministic(escape_at),
        first.len() == second.len(),
        buffer_rendered(escape_at, width, first),
        buffer_rendered(escape_at, width, second),
    ensures
        first == second,
{
    assert forall|i: int| 0 <= i < first.len() implies first[i] == second[i] by {
        assert(pixel_rendered(escape_at, width, i, first[i]));
        assert(pixel_rendered(escape_at, width, i, second[i]));
    }
    assert(first =~= second);
}

/// A rendered pixel is left black exactly when its point does not escape
/// within the iteration limit; every point that escapes gets a nonzero
/// intensity.
pub proof fn lemma_black_iff_bounded<F: Fn(usize, usize) -> Option<usize>>(
    escape_at: F,
    width: usize,
    index: int,
    value: u8,
)
    requires
        evaluator_is_deterministic(escape_at),
        forall|col: usize, row: usize, out: Option<usize>|
            #[trigger] escape_at.ensures((col, row), out) ==> escape_in_range(out),
        pixel_rendered(escape_at, width, index, value),
    ensures
        value == 0 <==> escape_at.ensures(
            ((index % width as int) as usize, (index / width as int) as usize),
            None,
        ),
{
}

} // verus!
