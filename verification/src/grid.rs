//! Geometry of a row-major pixel grid and the model of a binary mask.

use vstd::prelude::*;
use vstd::arithmetic::div_mod::lemma_fundamental_div_mod;
use vstd::arithmetic::div_mod::lemma_fundamental_div_mod_converse;
use vstd::arithmetic::mul::lemma_mul_is_commutative;

verus! {

/// Whether column `x`, row `y` names a pixel of a `width` by `height` grid.
pub open spec fn in_grid(width: int, height: int, x: int, y: int) -> bool {
    0 <= x < width && 0 <= y < height
}

/// Row-major position of the pixel in column `x`, row `y`.
pub open spec fn pixel_index(width: int, x: int, y: int) -> int {
    y * width + x
}

/// Column of the pixel stored at position `i`.
pub open spec fn column_of(width: int, i: int) -> int {
    i % width
}

/// Row of the pixel stored at position `i`.
pub open spec fn row_of(width: int, i: int) -> int {
    i / width
}

/// Whether the pixel in column `x`, row `y` is foreground in `mask`.
/// Every position outside the grid counts as background.
pub open spec fn lit(width: int, height: int, mask: Seq<bool>, x: int, y: int) -> bool {
    in_grid(width, height, x, y) && mask[pixel_index(width, x, y)]
}

/// Number of foreground pixels in `mask`.
pub open spec fn foreground_count(mask: Seq<bool>) -> nat
    decreases mask.len(),
{
    if mask.len() == 0 {
        0
    } else {
        foreground_count(mask.drop_last()) + if mask.last() { 1nat } else { 0nat }
    }
}

/// A mask holds no more foreground pixels than pixels.
pub proof fn lemma_count_bound(mask: Seq<bool>)
    ensures
        foreground_count(mask) <= mask.len(),
    decreases mask.len(),
{
    if mask.len() > 0 {
        lemma_count_bound(mask.drop_last());
    }
}

/// Turning one background pixel into foreground raises the count by one.
pub proof fn lemma_count_mark(mask: Seq<bool>, i: int)
    requires
        0 <= i < mask.len(),
        !mask[i],
    ensures
        foreground_count(mask.update(i, true)) == foreground_count(mask) + 1,
    decreases mask.len(),
{
    let marked = mask.update(i, true);
    if i == mask.len() - 1 {
        assert(marked.drop_last() =~= mask.drop_last());
    } else {
        assert(marked.drop_last() =~= mask.drop_last().update(i, true));
        lemma_count_mark(mask.drop_last(), i);
    }
}

/// A mask that is foreground wherever another one is holds at least as
/// many foreground pixels.
pub proof fn lemma_count_monotone(small: Seq<bool>, large: Seq<bool>)
    requires
        small.len() == large.len(),
        forall|i: int| 0 <= i < small.len() && small[i] ==> large[i],
    ensures
        foreground_count(small) <= foreground_count(large),
    decreases small.len(),
{
    if small.len() > 0 {
        lemma_count_monotone(small.drop_last(), large.drop_last());
    }
}

/// A pixel of the grid is stored inside the mask, and its position gives
/// back its column and row.
pub proof fn lemma_pixel_index(width: int, height: int, x: int, y: int)
    requires
        in_grid(width, height, x, y),
    ensures
        0 <= pixel_index(width, x, y) < width * height,
        column_of(width, pixel_index(width, x, y)) == x,
        row_of(width, pixel_index(width, x, y)) == y,
{
    lemma_fundamental_div_mod_converse(pixel_index(width, x, y), width, y, x);
    assert(y * width + x < width * height) by (nonlinear_arith)
        requires
            0 <= x < width,
            0 <= y < height,
    ;
    assert(0 <= y * width) by (nonlinear_arith)
        requires
            0 <= y,
            0 < width,
    ;
}

/// Every position of the mask holds a pixel of the grid.
pub proof fn lemma_index_pixel(width: int, height: int, i: int)
    requires
        0 <= i < width * height,
        0 <= width,
        0 <= height,
    ensures
        in_grid(width, height, column_of(width, i), row_of(width, i)),
        pixel_index(width, column_of(width, i), row_of(width, i)) == i,
{
    assert(width > 0) by (nonlinear_arith)
        requires
            0 <= i < width * height,
            0 <= width,
    ;
    lemma_fundamental_div_mod(i, width);
    lemma_mul_is_commutative(width, i / width);
    let q = i / width;
    assert(0 <= q < height) by (nonlinear_arith)
        requires
            0 <= i < width * height,
            i == q * width + i % width,
            0 <= i % width < width,
            0 < width,
    ;
}

/// Position of the pixel in column `x`, row `y`.
pub fn index_of(width: usize, height: usize, x: usize, y: usize) -> (i: usize)
    requires
        x < width,
        y < height,
        width * height <= usize::MAX,
    ensures
        i == pixel_index(width as int, x as int, y as int),
        i < width * height,
{
    proof {
        lemma_pixel_index(width as int, height as int, x as int, y as int);
        assert(0 <= y * width <= y * width + x) by (nonlinear_arith)
            requires
                0 <= y,
                0 <= width,
                0 <= x,
        ;
    }
    y * width + x
}

} // verus!
