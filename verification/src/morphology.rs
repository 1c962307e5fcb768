//! Erosion and dilation of a binary mask by a disk-shaped kernel.

use vstd::prelude::*;
use crate::grid::{
    column_of, foreground_count, in_grid, index_of, lemma_count_monotone, lemma_index_pixel,
    lemma_pixel_index, lit, pixel_index, row_of,
};

verus! {

/// Whether the offset (`dx`, `dy`) belongs to the disk kernel of the given
/// radius: its Euclidean length is at most `radius`.
pub open spec fn in_disk(dx: int, dy: int, radius: int) -> bool {
    dx * dx + dy * dy <= radius * radius
}

/// Whether the pixel in column `x`, row `y` survives erosion: every kernel
/// neighbour lies inside the grid and is foreground.
pub open spec fn erodes_to(
    width: int,
    height: int,
    mask: Seq<bool>,
    radius: int,
    x: int,
    y: int,
) -> bool {
    forall|dx: int, dy: int| #[trigger]
        in_disk(dx, dy, radius) ==> lit(width, height, mask, x + dx, y + dy)
}

/// The erosion of `mask`, pixel by pixel.
pub open spec fn eroded(width: int, height: int, mask: Seq<bool>, radius: int) -> Seq<bool> {
    Seq::new(
        (width * height) as nat,
        |i: int| erodes_to(width, height, mask, radius, column_of(width, i), row_of(width, i)),
    )
}

/// Whether dilation reaches the pixel in column `x`, row `y`: it is a kernel
/// neighbour of some foreground pixel of the grid.
pub open spec fn dilates_to(
    width: int,
    height: int,
    mask: Seq<bool>,
    radius: int,
    x: int,
    y: int,
) -> bool {
    exists|dx: int, dy: int| #[trigger]
        in_disk(dx, dy, radius) && lit(width, height, mask, x - dx, y - dy)
}

/// The dilation of `mask`, pixel by pixel.
pub open spec fn dilated(width: int, height: int, mask: Seq<bool>, radius: int) -> Seq<bool> {
    Seq::new(
        (width * height) as nat,
        |i: int| dilates_to(width, height, mask, radius, column_of(width, i), row_of(width, i)),
    )
}

/// An offset of the kernel is no longer than the radius along either axis.
pub proof fn lemma_disk_extent(dx: int, dy: int, radius: int)
    requires
        0 <= radius,
        in_disk(dx, dy, radius),
    ensures
        -radius <= dx <= radius,
        -radius <= dy <= radius,
{
    assert(-radius <= dx <= radius && -radius <= dy <= radius) by (nonlinear_arith)
        requires
            0 <= radius,
            dx * dx + dy * dy <= radius * radius,
    ;
}

/// The four axis-aligned offsets of full length belong to the kernel.
pub proof fn lemma_disk_axes(radius: int)
    ensures
        in_disk(-radius, 0, radius),
        in_disk(radius, 0, radius),
        in_disk(0, -radius, radius),
        in_disk(0, radius, radius),
        in_disk(0, 0, radius),
{
    assert((-radius) * (-radius) + 0 * 0 <= radius * radius) by (nonlinear_arith);
    assert(0 * 0 + (-radius) * (-radius) <= radius * radius) by (nonlinear_arith);
    assert(0 * 0 + 0 * 0 <= radius * radius) by (nonlinear_arith);
}

/// Kernel membership depends on the lengths of an offset along the two
/// axes only, not on their signs.
pub proof fn lemma_disk_symmetry(dx: int, dy: int, radius: int)
    ensures
        in_disk(-dx, dy, radius) == in_disk(dx, dy, radius),
        in_disk(dx, -dy, radius) == in_disk(dx, dy, radius),
        in_disk(-dx, -dy, radius) == in_disk(dx, dy, radius),
{
    assert((-dx) * (-dx) == dx * dx) by (nonlinear_arith);
    assert((-dy) * (-dy) == dy * dy) by (nonlinear_arith);
}

/// Erosion of a mask that is all foreground clears a border of the width
/// of the radius: a pixel stays foreground if and only if at least
/// `radius` pixels lie between it and each of the four edges of the grid.
pub proof fn lemma_erosion_clears_border(
    width: int,
    height: int,
    mask: Seq<bool>,
    radius: int,
    x: int,
    y: int,
)
    requires
        0 <= radius,
        mask.len() == width * height,
        forall|i: int| 0 <= i < mask.len() ==> mask[i],
        in_grid(width, height, x, y),
    ensures
        eroded(width, height, mask, radius)[pixel_index(width, x, y)] == (radius <= x && x + radius
            < width && radius <= y && y + radius < height),
{
    lemma_pixel_index(width, height, x, y);
    if radius <= x && x + radius < width && radius <= y && y + radius < height {
        assert forall|dx: int, dy: int| #[trigger] in_disk(dx, dy, radius) implies lit(
            width,
            height,
            mask,
            x + dx,
            y + dy,
        ) by {
            lemma_disk_extent(dx, dy, radius);
            lemma_pixel_index(width, height, x + dx, y + dy);
        }
    } else {
        lemma_disk_axes(radius);
        assert(!lit(width, height, mask, x - radius, y + 0) || !lit(
            width,
            height,
            mask,
            x + radius,
            y + 0,
        ) || !lit(width, height, mask, x + 0, y - radius) || !lit(
            width,
            height,
            mask,
            x + 0,
            y + radius,
        ));
    }
}

/// Dilation never loses foreground: every foreground pixel of a mask is
/// foreground in its dilation, so the dilation holds at least as many
/// foreground pixels; and the dilation of a mask without foreground has
/// none.
pub proof fn lemma_dilation_grows(width: int, height: int, mask: Seq<bool>, radius: int)
    requires
        0 <= width,
        0 <= height,
        mask.len() == width * height,
    ensures
        forall|i: int| 0 <= i < mask.len() && mask[i] ==> dilated(width, height, mask, radius)[i],
        foreground_count(dilated(width, height, mask, radius)) >= foreground_count(mask),
        (forall|i: int| 0 <= i < mask.len() ==> !mask[i]) ==> (forall|i: int|
            0 <= i < mask.len() ==> !dilated(width, height, mask, radius)[i]),
{
    let grown = dilated(width, height, mask, radius);
    assert forall|i: int| 0 <= i < mask.len() && mask[i] implies grown[i] by {
        lemma_index_pixel(width, height, i);
        lemma_disk_axes(radius);
    }
    lemma_count_monotone(mask, grown);
    if forall|i: int| 0 <= i < mask.len() ==> !mask[i] {
        assert forall|i: int| 0 <= i < mask.len() implies !grown[i] by {
            let x = column_of(width, i);
            let y = row_of(width, i);
            assert forall|dx: int, dy: int| #[trigger] in_disk(dx, dy, radius) implies !lit(
                width,
                height,
                mask,
                x - dx,
                y - dy,
            ) by {
                if in_grid(width, height, x - dx, y - dy) {
                    lemma_pixel_index(width, height, x - dx, y - dy);
                }
            }
        }
    }
}

/// The distance between two coordinates.
fn gap(a: usize, b: usize) -> (d: usize)
    ensures
        d == if a <= b { b - a } else { a - b },
{
    if a <= b {
        b - a
    } else {
        a - b
    }
}

/// Tests kernel membership of an offset given by its absolute lengths.
fn within_disk(dx: usize, dy: usize, radius: usize) -> (inside: bool)
    ensures
        inside == in_disk(dx as int, dy as int, radius as int),
{
    let wide_dx: u128 = dx as u128;
    let wide_dy: u128 = dy as u128;
    let wide_radius: u128 = radius as u128;
    assert(wide_dx * wide_dx <= 0xFFFF_FFFF_FFFF_FFFF * 0xFFFF_FFFF_FFFF_FFFF) by (nonlinear_arith)
        requires
            0 <= wide_dx <= 0xFFFF_FFFF_FFFF_FFFF,
    ;
    assert(wide_dy * wide_dy <= 0xFFFF_FFFF_FFFF_FFFF * 0xFFFF_FFFF_FFFF_FFFF) by (nonlinear_arith)
        requires
            0 <= wide_dy <= 0xFFFF_FFFF_FFFF_FFFF,
    ;
    assert(wide_radius * wide_radius <= 0xFFFF_FFFF_FFFF_FFFF * 0xFFFF_FFFF_FFFF_FFFF)
        by (nonlinear_arith)
        requires
            0 <= wide_radius <= 0xFFFF_FFFF_FFFF_FFFF,
    ;
    let dx2: u128 = wide_dx * wide_dx;
    let dy2: u128 = wide_dy * wide_dy;
    let r2: u128 = wide_radius * wide_radius;
    dx2 <= r2 && dy2 <= r2 - dx2
}

/// Decides whether one pixel survives erosion.
fn survives(width: usize, height: usize, img: &[bool], radius: usize, x: usize, y: usize) -> (keep:
    bool)
    requires
        img@.len() == width * height,
        width * height <= usize::MAX,
        x < width,
        y < height,
    ensures
        keep == erodes_to(width as int, height as int, img@, radius as int, x as int, y as int),
{
    let ghost w = width as int;
    let ghost h = height as int;
    let ghost r = radius as int;
    if x < radius || width - x <= radius || y < radius || height - y <= radius {
        proof {
            // One of the four axis-aligned kernel offsets of full length
            // leaves the grid.
            lemma_disk_axes(r);
            assert(!lit(w, h, img@, x - r, y + 0) || !lit(w, h, img@, x + r, y + 0) || !lit(
                w,
                h,
                img@,
                x + 0,
                y - r,
            ) || !lit(w, h, img@, x + 0, y + r));
        }
        return false;
    }
    let span: usize = radius + radius;
    let mut keep: bool = true;
    let mut oy: usize = 0;
    proof {
        assert forall|dx: int, dy: int| #[trigger] in_disk(dx, dy, r) && dy < 0 - r implies lit(
            w,
            h,
            img@,
            x + dx,
            y + dy,
        ) by {
            lemma_disk_extent(dx, dy, r);
        }
    }
    while keep && oy <= span
        invariant
            img@.len() == width * height,
            width * height <= usize::MAX,
            radius <= x,
            x + radius < width,
            radius <= y,
            y + radius < height,
            span == radius + radius,
            oy <= span + 1,
            w == width,
            h == height,
            r == radius,
            !keep ==> !erodes_to(w, h, img@, r, x as int, y as int),
            keep ==> forall|dx: int, dy: int| #[trigger]
                in_disk(dx, dy, r) && dy < oy - r ==> lit(w, h, img@, x + dx, y + dy),
        decreases (if keep { span + 2 - oy } else { 0 }),
    {
        let ny: usize = y - radius + oy;
        let ady: usize = gap(oy, radius);
        let mut ox: usize = 0;
        proof {
            assert forall|dx: int| #[trigger] in_disk(dx, oy - r, r) && dx < 0 - r implies lit(
                w,
                h,
                img@,
                x + dx,
                y + (oy - r),
            ) by {
                lemma_disk_extent(dx, oy - r, r);
            }
        }
        while keep && ox <= span
            invariant
                img@.len() == width * height,
                width * height <= usize::MAX,
                radius <= x,
                x + radius < width,
                radius <= y,
                y + radius < height,
                span == radius + radius,
                oy <= span,
                ox <= span + 1,
                ny == y - radius + oy,
                ady == if oy <= radius { radius - oy } else { oy - radius },
                w == width,
                h == height,
                r == radius,
                !keep ==> !erodes_to(w, h, img@, r, x as int, y as int),
                keep ==> forall|dx: int, dy: int| #[trigger]
                    in_disk(dx, dy, r) && dy < oy - r ==> lit(w, h, img@, x + dx, y + dy),
                keep ==> forall|dx: int| #[trigger]
                    in_disk(dx, oy - r, r) && dx < ox - r ==> lit(w, h, img@, x + dx, y + (oy - r)),
            decreases (if keep { span + 2 - ox } else { 0 }),
        {
            let nx: usize = x - radius + ox;
            let adx: usize = gap(ox, radius);
            if within_disk(adx, ady, radius) {
                let at: usize = index_of(width, height, nx, ny);
                if !img[at] {
                    keep = false;
                    proof {
                        assert(in_disk(ox - r, oy - r, r)) by (nonlinear_arith)
                            requires
                                in_disk(adx as int, ady as int, r),
                                adx == ox - r || adx == r - ox,
                                ady == oy - r || ady == r - oy,
                        ;
                    }
                }
            } else {
                proof {
                    assert(!in_disk(ox - r, oy - r, r)) by (nonlinear_arith)
                        requires
                            !in_disk(adx as int, ady as int, r),
                            adx == ox - r || adx == r - ox,
                            ady == oy - r || ady == r - oy,
                    ;
                }
            }
            if keep {
                ox = ox + 1;
            }
        }
        if keep {
            proof {
                assert forall|dx: int, dy: int| #[trigger]
                    in_disk(dx, dy, r) && dy < oy + 1 - r implies lit(
                    w,
                    h,
                    img@,
                    x + dx,
                    y + dy,
                ) by {
                    lemma_disk_extent(dx, dy, r);
                }
            }
            oy = oy + 1;
        }
    }
    proof {
        if keep {
            assert forall|dx: int, dy: int| #[trigger] in_disk(dx, dy, r) implies lit(
                w,
                h,
                img@,
                x + dx,
                y + dy,
            ) by {
                lemma_disk_extent(dx, dy, r);
            }
        }
    }
    keep
}

/// Erodes a binary mask with a disk kernel: a pixel stays foreground only
/// if its whole kernel neighbourhood lies inside the grid and is
/// foreground, so every pixel closer than `radius` to the outside of the
/// grid becomes background.
pub fn erode(width: usize, height: usize, img: &[bool], radius: usize) -> (out: Vec<bool>)
    requires
        img@.len() == width * height,
    ensures
        out@ == eroded(width as int, height as int, img@, radius as int),
        out@.len() == img@.len(),
        forall|x: int, y: int|
            in_grid(width as int, height as int, x, y) ==> out@[#[trigger] pixel_index(
                width as int,
                x,
                y,
            )] == erodes_to(width as int, height as int, img@, radius as int, x, y),
{
    let size: usize = img.len();
    let mut out: Vec<bool> = Vec::new();
    let mut y: usize = 0;
    while y < height
        invariant
            img@.len() == width * height,
            size == width * height,
            y <= height,
            out@.len() == y * width,
            forall|i: int|
                0 <= i < out@.len() ==> out@[i] == erodes_to(
                    width as int,
                    height as int,
                    img@,
                    radius as int,
                    column_of(width as int, i),
                    row_of(width as int, i),
                ),
        decreases height - y,
    {
        let mut x: usize = 0;
        while x < width
            invariant
                img@.len() == width * height,
                size == width * height,
                y < height,
                x <= width,
                out@.len() == y * width + x,
                forall|i: int|
                    0 <= i < out@.len() ==> out@[i] == erodes_to(
                        width as int,
                        height as int,
                        img@,
                        radius as int,
                        column_of(width as int, i),
                        row_of(width as int, i),
                    ),
            decreases width - x,
        {
            let keep = survives(width, height, img, radius, x, y);
            proof {
                lemma_pixel_index(width as int, height as int, x as int, y as int);
            }
            out.push(keep);
            x = x + 1;
        }
        assert(y * width + width == (y + 1) * width) by (nonlinear_arith);
        y = y + 1;
    }
    assert(height * width == width * height) by (nonlinear_arith);
    assert forall|x: int, y: int| in_grid(width as int, height as int, x, y) implies out@[#[trigger] pixel_index(
        width as int,
        x,
        y,
    )] == erodes_to(width as int, height as int, img@, radius as int, x, y) by {
        lemma_pixel_index(width as int, height as int, x, y);
    }
    out
}

/// Decides whether dilation reaches one pixel.
fn reached(width: usize, height: usize, img: &[bool], radius: usize, x: usize, y: usize) -> (hit:
    bool)
    requires
        img@.len() == width * height,
        width * height <= usize::MAX,
        x < width,
        y < height,
    ensures
        hit == dilates_to(width as int, height as int, img@, radius as int, x as int, y as int),
{
    let ghost w = width as int;
    let ghost h = height as int;
    let ghost r = radius as int;
    let first_row: usize = if y < radius { 0 } else { y - radius };
    let last_row: usize = if height - 1 - y < radius { height - 1 } else { y + radius };
    let first_column: usize = if x < radius { 0 } else { x - radius };
    let last_column: usize = if width - 1 - x < radius { width - 1 } else { x + radius };
    let mut hit: bool = false;
    let mut py: usize = first_row;
    proof {
        assert forall|dx: int, dy: int| #[trigger]
            in_disk(dx, dy, r) && lit(w, h, img@, x - dx, y - dy) implies y - dy >= py by {
            lemma_disk_extent(dx, dy, r);
        }
    }
    while !hit && py <= last_row
        invariant
            img@.len() == width * height,
            width * height <= usize::MAX,
            x < width,
            y < height,
            w == width,
            h == height,
            r == radius,
            first_row <= py <= last_row + 1,
            last_row < height,
            last_row == if height - 1 - y < radius { height - 1 } else { y + radius },
            first_column == if x < radius { 0 } else { x - radius },
            last_column == if width - 1 - x < radius { width - 1 } else { x + radius },
            hit ==> dilates_to(w, h, img@, r, x as int, y as int),
            !hit ==> forall|dx: int, dy: int| #[trigger]
                in_disk(dx, dy, r) && lit(w, h, img@, x - dx, y - dy) ==> y - dy >= py,
        decreases (if hit { 0 } else { last_row + 2 - py }),
    {
        let ady: usize = gap(y, py);
        let mut px: usize = first_column;
        proof {
            assert forall|dx: int| #[trigger]
                in_disk(dx, y - py, r) && lit(w, h, img@, x - dx, py as int) implies x - dx
                >= px by {
                lemma_disk_extent(dx, y - py, r);
            }
        }
        while !hit && px <= last_column
            invariant
                img@.len() == width * height,
                width * height <= usize::MAX,
                x < width,
                y < height,
                py < height,
                w == width,
                h == height,
                r == radius,
                ady == if y <= py { py - y } else { y - py },
                first_column <= px <= last_column + 1,
                last_column < width,
                hit ==> dilates_to(w, h, img@, r, x as int, y as int),
                !hit ==> forall|dx: int| #[trigger]
                    in_disk(dx, y - py, r) && lit(w, h, img@, x - dx, py as int) ==> x - dx >= px,
            decreases (if hit { 0 } else { last_column + 2 - px }),
        {
            let at: usize = index_of(width, height, px, py);
            let adx: usize = gap(x, px);
            proof {
                lemma_disk_symmetry(x - px, y - py, r);
            }
            if img[at] && within_disk(adx, ady, radius) {
                hit = true;
            } else {
                px = px + 1;
            }
        }
        if !hit {
            proof {
                assert forall|dx: int, dy: int| #[trigger]
                    in_disk(dx, dy, r) && lit(w, h, img@, x - dx, y - dy) implies y - dy >= py
                    + 1 by {
                    lemma_disk_extent(dx, dy, r);
                    if y - dy == py {
                        assert(in_disk(dx, y - py, r));
                    }
                }
            }
            py = py + 1;
        }
    }
    proof {
        if !hit {
            assert forall|dx: int, dy: int| #[trigger] in_disk(dx, dy, r) implies !lit(
                w,
                h,
                img@,
                x - dx,
                y - dy,
            ) by {
                lemma_disk_extent(dx, dy, r);
            }
        }
    }
    hit
}

/// Dilates a binary mask with a disk kernel: a pixel becomes foreground if
/// it lies within `radius` of some foreground pixel of the grid. Kernel
/// neighbours outside the grid are skipped.
pub fn dilate(width: usize, height: usize, img: &[bool], radius: usize) -> (out: Vec<bool>)
    requires
        img@.len() == width * height,
    ensures
        out@ == dilated(width as int, height as int, img@, radius as int),
        out@.len() == img@.len(),
        forall|x: int, y: int|
            in_grid(width as int, height as int, x, y) ==> out@[#[trigger] pixel_index(
                width as int,
                x,
                y,
            )] == dilates_to(width as int, height as int, img@, radius as int, x, y),
{
    let size: usize = img.len();
    let mut out: Vec<bool> = Vec::new();
    let mut y: usize = 0;
    while y < height
        invariant
            img@.len() == width * height,
            size == width * height,
            y <= height,
            out@.len() == y * width,
            forall|i: int|
                0 <= i < out@.len() ==> out@[i] == dilates_to(
                    width as int,
                    height as int,
                    img@,
                    radius as int,
                    column_of(width as int, i),
                    row_of(width as int, i),
                ),
        decreases height - y,
    {
        let mut x: usize = 0;
        while x < width
            invariant
                img@.len() == width * height,
                size == width * height,
                y < height,
                x <= width,
                out@.len() == y * width + x,
                forall|i: int|
                    0 <= i < out@.len() ==> out@[i] == dilates_to(
                        width as int,
                        height as int,
                        img@,
                        radius as int,
                        column_of(width as int, i),
                        row_of(width as int, i),
                    ),
            decreases width - x,
        {
            let hit = reached(width, height, img, radius, x, y);
            proof {
                lemma_pixel_index(width as int, height as int, x as int, y as int);
            }
            out.push(hit);
            x = x + 1;
        }
        assert(y * width + width == (y + 1) * width) by (nonlinear_arith);
        y = y + 1;
    }
    assert(height * width == width * height) by (nonlinear_arith);
    assert forall|x: int, y: int| in_grid(width as int, height as int, x, y) implies out@[#[trigger] pixel_index(
        width as int,
        x,
        y,
    )] == dilates_to(width as int, height as int, img@, radius as int, x, y) by {
        lemma_pixel_index(width as int, height as int, x, y);
    }
    out
}

} // verus!
