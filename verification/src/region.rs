//! Isolation of the connected foreground region around a seed pixel.

use std::collections::VecDeque;
use vstd::prelude::*;
use crate::grid::{
    column_of, foreground_count, in_grid, index_of, lemma_count_bound, lemma_count_mark,
    lemma_index_pixel, lemma_pixel_index, lit, pixel_index, row_of,
};

verus! {

/// The farthest ring around the start pixel that is searched for a seed.
pub const SEARCH_RINGS: usize = 20;

/// Distance between two coordinates along one axis.
pub open spec fn span(a: int, b: int) -> int {
    if a <= b {
        b - a
    } else {
        a - b
    }
}

/// Chebyshev distance between two pixels: the number of the square ring
/// around the first on which the second lies.
pub open spec fn ring_distance(ax: int, ay: int, bx: int, by: int) -> int {
    if span(ax, bx) >= span(ay, by) {
        span(ax, bx)
    } else {
        span(ay, by)
    }
}

/// Whether the search around (`sx`, `sy`) looks at (`x`, `y`) no later than
/// at (`px`, `py`): nearer rings come first, and within a ring the pixels
/// come row by row, each row from left to right.
pub open spec fn searched_first(sx: int, sy: int, x: int, y: int, px: int, py: int) -> bool {
    let d = ring_distance(sx, sy, x, y);
    let e = ring_distance(sx, sy, px, py);
    d < e || (d == e && (y < py || (y == py && x <= px)))
}

/// Whether (`x`, `y`) is the foreground pixel that the search around
/// (`sx`, `sy`) meets first, within the searched rings.
pub open spec fn is_nearest_lit(
    width: int,
    height: int,
    mask: Seq<bool>,
    sx: int,
    sy: int,
    x: int,
    y: int,
) -> bool {
    &&& lit(width, height, mask, x, y)
    &&& ring_distance(sx, sy, x, y) <= SEARCH_RINGS
    &&& forall|px: int, py: int| #[trigger]
        lit(width, height, mask, px, py) ==> searched_first(sx, sy, x, y, px, py)
}

/// The pixel from which the fill starts: the start pixel itself where it
/// is foreground, else the nearest foreground pixel in search order, if
/// there is one within the searched rings.
pub open spec fn seed_for(width: int, height: int, mask: Seq<bool>, sx: int, sy: int) -> Option<
    (int, int),
> {
    if lit(width, height, mask, sx, sy) {
        Some((sx, sy))
    } else if exists|p: (int, int)| #[trigger] is_nearest_lit(width, height, mask, sx, sy, p.0, p.1) {
        Some(choose|p: (int, int)| #[trigger] is_nearest_lit(width, height, mask, sx, sy, p.0, p.1))
    } else {
        None
    }
}

/// At most one pixel is the nearest foreground pixel.
pub proof fn lemma_nearest_lit_unique(
    width: int,
    height: int,
    mask: Seq<bool>,
    sx: int,
    sy: int,
    p: (int, int),
    q: (int, int),
)
    requires
        is_nearest_lit(width, height, mask, sx, sy, p.0, p.1),
        is_nearest_lit(width, height, mask, sx, sy, q.0, q.1),
    ensures
        p == q,
{
}

/// Whether two pixels share an edge.
pub open spec fn adjacent(ax: int, ay: int, bx: int, by: int) -> bool {
    (ax == bx && span(ay, by) == 1) || (ay == by && span(ax, bx) == 1)
}

/// Whether the pixel at place `k` of a walk shares an edge with the one
/// before it.
pub open spec fn linked(walk: Seq<(int, int)>, k: int) -> bool {
    adjacent(walk[k - 1].0, walk[k - 1].1, walk[k].0, walk[k].1)
}

/// A walk through the foreground: one foreground pixel or more, each
/// sharing an edge with the next.
pub open spec fn is_walk(width: int, height: int, mask: Seq<bool>, walk: Seq<(int, int)>) -> bool {
    &&& walk.len() > 0
    &&& forall|k: int|
        0 <= k < walk.len() ==> lit(width, height, mask, (#[trigger] walk[k]).0, walk[k].1)
    &&& forall|k: int| 1 <= k < walk.len() ==> #[trigger] linked(walk, k)
}

/// Whether `walk` leads through the foreground from (`sx`, `sy`) to
/// (`tx`, `ty`).
pub open spec fn joins(
    width: int,
    height: int,
    mask: Seq<bool>,
    walk: Seq<(int, int)>,
    sx: int,
    sy: int,
    tx: int,
    ty: int,
) -> bool {
    is_walk(width, height, mask, walk) && walk[0] == (sx, sy) && walk[walk.len() - 1] == (tx, ty)
}

/// Whether two pixels belong to one connected foreground region: some walk
/// through the foreground leads from one to the other.
pub open spec fn connected(
    width: int,
    height: int,
    mask: Seq<bool>,
    sx: int,
    sy: int,
    tx: int,
    ty: int,
) -> bool {
    exists|walk: Seq<(int, int)>| #[trigger] joins(width, height, mask, walk, sx, sy, tx, ty)
}

/// The connected foreground region that holds (`sx`, `sy`), as a mask. It
/// is empty where that pixel is background.
pub open spec fn component(width: int, height: int, mask: Seq<bool>, sx: int, sy: int) -> Seq<
    bool,
> {
    Seq::new(
        (width * height) as nat,
        |i: int|
            connected(width, height, mask, sx, sy, column_of(width, i), row_of(width, i)),
    )
}

/// The mask without foreground.
pub open spec fn blank(width: int, height: int) -> Seq<bool> {
    Seq::new((width * height) as nat, |i: int| false)
}

/// The region isolated for a start pixel: the connected region of its
/// seed, and nothing where no seed is found.
pub open spec fn isolated(width: int, height: int, mask: Seq<bool>, sx: int, sy: int) -> Seq<bool> {
    match seed_for(width, height, mask, sx, sy) {
        Some(seed) => component(width, height, mask, seed.0, seed.1),
        None => blank(width, height),
    }
}

/// A foreground pixel is connected to itself.
pub proof fn lemma_connected_itself(width: int, height: int, mask: Seq<bool>, x: int, y: int)
    requires
        lit(width, height, mask, x, y),
    ensures
        connected(width, height, mask, x, y, x, y),
{
    let walk = seq![(x, y)];
    assert(joins(width, height, mask, walk, x, y, x, y));
}

/// A connection reaches on to every foreground pixel that shares an edge
/// with its end.
pub proof fn lemma_connected_extend(
    width: int,
    height: int,
    mask: Seq<bool>,
    sx: int,
    sy: int,
    px: int,
    py: int,
    nx: int,
    ny: int,
)
    requires
        connected(width, height, mask, sx, sy, px, py),
        adjacent(px, py, nx, ny),
        lit(width, height, mask, nx, ny),
    ensures
        connected(width, height, mask, sx, sy, nx, ny),
{
    let walk = choose|walk: Seq<(int, int)>| #[trigger]
        joins(width, height, mask, walk, sx, sy, px, py);
    let longer = walk.push((nx, ny));
    assert forall|k: int| 1 <= k < longer.len() implies #[trigger] linked(longer, k) by {
        if k < walk.len() {
            assert(linked(walk, k));
        }
    }
    assert(joins(width, height, mask, longer, sx, sy, nx, ny));
}

/// Whether `region` takes in every foreground pixel that shares an edge
/// with one of its pixels.
pub open spec fn closed_region(width: int, height: int, mask: Seq<bool>, region: Set<(int, int)>) -> bool {
    forall|ax: int, ay: int, bx: int, by: int|
        region.contains((ax, ay)) && #[trigger] adjacent(ax, ay, bx, by) && lit(
            width,
            height,
            mask,
            bx,
            by,
        ) ==> region.contains((bx, by))
}

/// A walk that starts inside a closed region never leaves it.
pub proof fn lemma_walk_within(
    width: int,
    height: int,
    mask: Seq<bool>,
    region: Set<(int, int)>,
    walk: Seq<(int, int)>,
    k: int,
)
    requires
        is_walk(width, height, mask, walk),
        closed_region(width, height, mask, region),
        region.contains(walk[0]),
        0 <= k < walk.len(),
    ensures
        region.contains(walk[k]),
    decreases k,
{
    if k > 0 {
        lemma_walk_within(width, height, mask, region, walk, k - 1);
        assert(linked(walk, k));
    }
}

/// Whether `blob` is a whole connected foreground region: a set of
/// foreground pixels, any two of them connected, that takes in every
/// foreground pixel sharing an edge with one of its own.
pub open spec fn is_blob(width: int, height: int, mask: Seq<bool>, blob: Set<(int, int)>) -> bool {
    &&& forall|p: (int, int)| #[trigger] blob.contains(p) ==> lit(width, height, mask, p.0, p.1)
    &&& forall|p: (int, int), q: (int, int)|
        #[trigger] blob.contains(p) && #[trigger] blob.contains(q) ==> connected(
            width,
            height,
            mask,
            p.0,
            p.1,
            q.0,
            q.1,
        )
    &&& closed_region(width, height, mask, blob)
}

/// Isolation from a start pixel inside a blob marks exactly the pixels of
/// that blob, and so none of any set of pixels apart from it, such as
/// another blob of the mask.
pub proof fn lemma_isolation_keeps_to_blob(
    width: int,
    height: int,
    mask: Seq<bool>,
    blob: Set<(int, int)>,
    other: Set<(int, int)>,
    sx: int,
    sy: int,
)
    requires
        mask.len() == width * height,
        is_blob(width, height, mask, blob),
        blob.contains((sx, sy)),
        blob.disjoint(other),
    ensures
        forall|x: int, y: int|
            in_grid(width, height, x, y) ==> isolated(width, height, mask, sx, sy)[pixel_index(
                width,
                x,
                y,
            )] == #[trigger] blob.contains((x, y)),
        forall|x: int, y: int|
            in_grid(width, height, x, y) && #[trigger] other.contains((x, y)) ==> !isolated(
                width,
                height,
                mask,
                sx,
                sy,
            )[pixel_index(width, x, y)],
{
    let region = isolated(width, height, mask, sx, sy);
    assert forall|x: int, y: int| in_grid(width, height, x, y) implies region[pixel_index(
        width,
        x,
        y,
    )] == #[trigger] blob.contains((x, y)) by {
        lemma_pixel_index(width, height, x, y);
        if connected(width, height, mask, sx, sy, x, y) {
            let walk = choose|walk: Seq<(int, int)>| #[trigger]
                joins(width, height, mask, walk, sx, sy, x, y);
            lemma_walk_within(width, height, mask, blob, walk, walk.len() - 1);
        }
    }
    assert forall|x: int, y: int|
        in_grid(width, height, x, y) && #[trigger] other.contains((x, y)) implies !region[pixel_index(
        width,
        x,
        y,
    )] by {}
}

/// Whether the pixel (`x`, `y`) waits in the queue.
spec fn queued(queue: Seq<(usize, usize)>, x: int, y: int) -> bool {
    exists|k: int| 0 <= k < queue.len() && (#[trigger] queue[k]).0 == x && queue[k].1 == y
}

/// Whether `longer` begins with all of `shorter`.
spec fn extends(shorter: Seq<(usize, usize)>, longer: Seq<(usize, usize)>) -> bool {
    shorter.len() <= longer.len() && forall|k: int|
        0 <= k < shorter.len() ==> shorter[k] == longer[k]
}

/// Whether every waiting pixel lies in the grid and, if it is foreground,
/// is connected to the seed.
spec fn sound_queue(
    width: int,
    height: int,
    mask: Seq<bool>,
    sx: int,
    sy: int,
    queue: Seq<(usize, usize)>,
) -> bool {
    forall|k: int|
        0 <= k < queue.len() ==> {
            let p = #[trigger] queue[k];
            in_grid(width, height, p.0 as int, p.1 as int) && (lit(
                width,
                height,
                mask,
                p.0 as int,
                p.1 as int,
            ) ==> connected(width, height, mask, sx, sy, p.0 as int, p.1 as int))
        }
}

/// Whether every foreground pixel next to a marked one is marked or waits
/// in the queue.
spec fn guarded_border(
    width: int,
    height: int,
    mask: Seq<bool>,
    marks: Seq<bool>,
    queue: Seq<(usize, usize)>,
) -> bool {
    forall|ax: int, ay: int, bx: int, by: int|
        lit(width, height, marks, ax, ay) && #[trigger] adjacent(ax, ay, bx, by) && lit(
            width,
            height,
            mask,
            bx,
            by,
        ) ==> lit(width, height, marks, bx, by) || queued(queue, bx, by)
}

/// A pixel that waits in a queue waits in every queue that extends it.
proof fn lemma_queued_extends(
    shorter: Seq<(usize, usize)>,
    longer: Seq<(usize, usize)>,
    x: int,
    y: int,
)
    requires
        extends(shorter, longer),
        queued(shorter, x, y),
    ensures
        queued(longer, x, y),
{
}

/// A pixel that waits behind the front of a queue still waits once the
/// front has left.
proof fn lemma_queued_behind(queue: Seq<(usize, usize)>, x: int, y: int)
    requires
        queued(queue, x, y),
        queue[0].0 != x || queue[0].1 != y,
    ensures
        queued(queue.subrange(1, queue.len() as int), x, y),
{
    let k = choose|k: int| 0 <= k < queue.len() && (#[trigger] queue[k]).0 == x && queue[k].1 == y;
    let rest = queue.subrange(1, queue.len() as int);
    assert(rest[k - 1].0 == x && rest[k - 1].1 == y);
}

/// Finds the pixel from which the fill starts. A foreground start pixel is
/// its own seed. Around a background start pixel the square rings of
/// radius 1 to `SEARCH_RINGS` are searched in turn, each row by row and
/// from left to right, and the first foreground pixel met is the seed.
pub fn nearest_seed(width: usize, height: usize, img: &[bool], start_x: usize, start_y: usize) -> (seed:
    Option<(usize, usize)>)
    requires
        img@.len() == width * height,
        start_x < width,
        start_y < height,
    ensures
        seed_for(width as int, height as int, img@, start_x as int, start_y as int) == match seed {
            Some(p) => Some((p.0 as int, p.1 as int)),
            None => None,
        },
        lit(width as int, height as int, img@, start_x as int, start_y as int) ==> seed == Some(
            (start_x, start_y),
        ),
        !lit(width as int, height as int, img@, start_x as int, start_y as int) ==> match seed {
            Some(p) => is_nearest_lit(
                width as int,
                height as int,
                img@,
                start_x as int,
                start_y as int,
                p.0 as int,
                p.1 as int,
            ),
            None => forall|px: int, py: int| #[trigger]
                lit(width as int, height as int, img@, px, py) ==> ring_distance(
                    start_x as int,
                    start_y as int,
                    px,
                    py,
                ) > SEARCH_RINGS,
        },
{
    let size: usize = img.len();
    let ghost w = width as int;
    let ghost h = height as int;
    let ghost sx = start_x as int;
    let ghost sy = start_y as int;
    if img[index_of(width, height, start_x, start_y)] {
        return Some((start_x, start_y));
    }
    let mut ring: usize = 1;
    while ring <= SEARCH_RINGS
        invariant
            img@.len() == width * height,
            size == width * height,
            start_x < width,
            start_y < height,
            w == width,
            h == height,
            sx == start_x,
            sy == start_y,
            1 <= ring <= SEARCH_RINGS + 1,
            !lit(w, h, img@, sx, sy),
            forall|px: int, py: int| #[trigger]
                lit(w, h, img@, px, py) ==> ring_distance(sx, sy, px, py) >= ring,
        decreases SEARCH_RINGS + 1 - ring,
    {
        let first_row: usize = if start_y < ring { 0 } else { start_y - ring };
        let last_row: usize = if height - 1 - start_y < ring { height - 1 } else { start_y + ring };
        let first_column: usize = if start_x < ring { 0 } else { start_x - ring };
        let last_column: usize = if width - 1 - start_x < ring { width - 1 } else { start_x + ring };
        let mut y: usize = first_row;
        while y <= last_row
            invariant
                img@.len() == width * height,
                size == width * height,
                start_x < width,
                start_y < height,
                w == width,
                h == height,
                sx == start_x,
                sy == start_y,
                1 <= ring <= SEARCH_RINGS,
                first_row <= y <= last_row + 1,
                last_row < height,
                first_row == if start_y < ring { 0 } else { start_y - ring },
                last_row == if height - 1 - start_y < ring { height - 1 } else { start_y + ring },
                first_column == if start_x < ring { 0 } else { start_x - ring },
                last_column == if width - 1 - start_x < ring { width - 1 } else { start_x + ring },
                forall|px: int, py: int| #[trigger]
                    lit(w, h, img@, px, py) ==> ring_distance(sx, sy, px, py) >= ring,
                forall|px: int, py: int| #[trigger]
                    lit(w, h, img@, px, py) && ring_distance(sx, sy, px, py) <= ring ==> py >= y,
            decreases last_row + 1 - y,
        {
            let mut x: usize = first_column;
            while x <= last_column
                invariant
                    img@.len() == width * height,
                    size == width * height,
                    start_x < width,
                    start_y < height,
                    y < height,
                    w == width,
                    h == height,
                    sx == start_x,
                    sy == start_y,
                    1 <= ring <= SEARCH_RINGS,
                    first_column <= x <= last_column + 1,
                    last_column < width,
                    first_row <= y <= last_row,
                    first_row == if start_y < ring { 0 } else { start_y - ring },
                    last_row == if height - 1 - start_y < ring { height - 1 } else { start_y + ring },
                    first_column == if start_x < ring { 0 } else { start_x - ring },
                    last_column == if width - 1 - start_x < ring { width - 1 } else { start_x + ring },
                    forall|px: int, py: int| #[trigger]
                        lit(w, h, img@, px, py) ==> ring_distance(sx, sy, px, py) >= ring,
                    forall|px: int, py: int| #[trigger]
                        lit(w, h, img@, px, py) && ring_distance(sx, sy, px, py) <= ring ==> py >= y,
                    forall|px: int| #[trigger]
                        lit(w, h, img@, px, y as int) && ring_distance(sx, sy, px, y as int) <= ring
                            ==> px >= x,
                decreases last_column + 1 - x,
            {
                if img[index_of(width, height, x, y)] {
                    proof {
                        let found = (x as int, y as int);
                        assert(lit(w, h, img@, found.0, found.1));
                        assert forall|px: int, py: int| #[trigger]
                            lit(w, h, img@, px, py) implies searched_first(
                            sx,
                            sy,
                            found.0,
                            found.1,
                            px,
                            py,
                        ) by {}
                        assert(is_nearest_lit(w, h, img@, sx, sy, found.0, found.1));
                        let chosen = choose|p: (int, int)| #[trigger]
                            is_nearest_lit(w, h, img@, sx, sy, p.0, p.1);
                        lemma_nearest_lit_unique(w, h, img@, sx, sy, chosen, found);
                    }
                    return Some((x, y));
                }
                x = x + 1;
            }
            y = y + 1;
        }
        ring = ring + 1;
    }
    proof {
        assert forall|p: (int, int)| !#[trigger] is_nearest_lit(w, h, img@, sx, sy, p.0, p.1) by {}
    }
    None
}

/// Extending a queue twice extends it.
proof fn lemma_extends_chain(
    first: Seq<(usize, usize)>,
    second: Seq<(usize, usize)>,
    third: Seq<(usize, usize)>,
)
    requires
        extends(first, second),
        extends(second, third),
    ensures
        extends(first, third),
{
}

/// A mask of `size` background pixels.
fn blank_mask(size: usize) -> (out: Vec<bool>)
    ensures
        out@.len() == size,
        forall|i: int| 0 <= i < size ==> !out@[i],
{
    let mut out: Vec<bool> = Vec::new();
    let mut i: usize = 0;
    while i < size
        invariant
            i <= size,
            out@.len() == i,
            forall|j: int| 0 <= j < i ==> !out@[j],
        decreases size - i,
    {
        out.push(false);
        i = i + 1;
    }
    out
}

/// Puts the pixel (`x`, `y`) at the back of the queue.
fn enqueue(
    queue: &mut VecDeque<(usize, usize)>,
    x: usize,
    y: usize,
    Ghost(width): Ghost<int>,
    Ghost(height): Ghost<int>,
    Ghost(mask): Ghost<Seq<bool>>,
    Ghost(sx): Ghost<int>,
    Ghost(sy): Ghost<int>,
)
    requires
        sound_queue(width, height, mask, sx, sy, old(queue)@),
        in_grid(width, height, x as int, y as int),
        lit(width, height, mask, x as int, y as int) ==> connected(
            width,
            height,
            mask,
            sx,
            sy,
            x as int,
            y as int,
        ),
    ensures
        final(queue)@ == old(queue)@.push((x, y)),
        sound_queue(width, height, mask, sx, sy, final(queue)@),
        extends(old(queue)@, final(queue)@),
        queued(final(queue)@, x as int, y as int),
{
    queue.push_back((x, y));
    proof {
        let last = old(queue)@.len() as int;
        assert(queue@[last] == (x, y));
    }
}

/// Marks the connected foreground region of the seed pixel: every
/// foreground pixel that a chain of foreground pixels, each sharing an
/// edge with the next, joins to the seed, and no other. The walk is
/// breadth-first.
pub fn fill_component(width: usize, height: usize, img: &[bool], seed_x: usize, seed_y: usize) -> (out:
    Vec<bool>)
    requires
        img@.len() == width * height,
        seed_x < width,
        seed_y < height,
    ensures
        out@ == component(width as int, height as int, img@, seed_x as int, seed_y as int),
        out@.len() == img@.len(),
        forall|x: int, y: int|
            in_grid(width as int, height as int, x, y) ==> out@[#[trigger] pixel_index(
                width as int,
                x,
                y,
            )] == connected(width as int, height as int, img@, seed_x as int, seed_y as int, x, y),
{
    let size: usize = img.len();
    let ghost w = width as int;
    let ghost h = height as int;
    let ghost sx = seed_x as int;
    let ghost sy = seed_y as int;
    let mut out: Vec<bool> = blank_mask(size);
    let mut queue: VecDeque<(usize, usize)> = VecDeque::new();
    proof {
        if lit(w, h, img@, sx, sy) {
            lemma_connected_itself(w, h, img@, sx, sy);
        }
        assert forall|px: int, py: int| !#[trigger] lit(w, h, out@, px, py) by {
            if in_grid(w, h, px, py) {
                lemma_pixel_index(w, h, px, py);
            }
        }
    }
    enqueue(&mut queue, seed_x, seed_y, Ghost(w), Ghost(h), Ghost(img@), Ghost(sx), Ghost(sy));
    while queue.len() > 0
        invariant
            img@.len() == width * height,
            size == width * height,
            out@.len() == size,
            seed_x < width,
            seed_y < height,
            w == width,
            h == height,
            sx == seed_x,
            sy == seed_y,
            // Only pixels of the seed's region are marked.
            forall|px: int, py: int| #[trigger]
                lit(w, h, out@, px, py) ==> connected(w, h, img@, sx, sy, px, py),
            sound_queue(w, h, img@, sx, sy, queue@),
            // Nothing of the region is lost: the seed and every foreground
            // pixel next to a marked one is marked or still waits.
            lit(w, h, img@, sx, sy) ==> lit(w, h, out@, sx, sy) || queued(queue@, sx, sy),
            guarded_border(w, h, img@, out@, queue@),
        decreases out@.len() - foreground_count(out@), queue@.len(),
    {
        let ghost before = queue@;
        let ghost marks = out@;
        let front = queue.pop_front().unwrap();
        let x: usize = front.0;
        let y: usize = front.1;
        let ghost px = x as int;
        let ghost py = y as int;
        let ghost q1 = queue@;
        proof {
            assert(sound_queue(w, h, img@, sx, sy, q1));
            lemma_pixel_index(w, h, px, py);
            lemma_count_bound(marks);
        }
        let at: usize = index_of(width, height, x, y);
        if !out[at] && img[at] {
            out.set(at, true);
            proof {
                lemma_count_mark(marks, at as int);
                lemma_count_bound(out@);
            }
            if x > 0 {
                proof {
                    if lit(w, h, img@, px - 1, py) {
                        lemma_connected_extend(w, h, img@, sx, sy, px, py, px - 1, py);
                    }
                }
                enqueue(&mut queue, x - 1, y, Ghost(w), Ghost(h), Ghost(img@), Ghost(sx), Ghost(sy));
            }
            let ghost q2 = queue@;
            if x < width - 1 {
                proof {
                    if lit(w, h, img@, px + 1, py) {
                        lemma_connected_extend(w, h, img@, sx, sy, px, py, px + 1, py);
                    }
                }
                enqueue(&mut queue, x + 1, y, Ghost(w), Ghost(h), Ghost(img@), Ghost(sx), Ghost(sy));
            }
            let ghost q3 = queue@;
            if y > 0 {
                proof {
                    if lit(w, h, img@, px, py - 1) {
                        lemma_connected_extend(w, h, img@, sx, sy, px, py, px, py - 1);
                    }
                }
                enqueue(&mut queue, x, y - 1, Ghost(w), Ghost(h), Ghost(img@), Ghost(sx), Ghost(sy));
            }
            let ghost q4 = queue@;
            if y < height - 1 {
                proof {
                    if lit(w, h, img@, px, py + 1) {
                        lemma_connected_extend(w, h, img@, sx, sy, px, py, px, py + 1);
                    }
                }
                enqueue(&mut queue, x, y + 1, Ghost(w), Ghost(h), Ghost(img@), Ghost(sx), Ghost(sy));
            }
            proof {
                let q5 = queue@;
                lemma_extends_chain(q3, q4, q5);
                lemma_extends_chain(q2, q3, q5);
                lemma_extends_chain(q1, q2, q5);
                if x > 0 {
                    lemma_queued_extends(q2, q5, px - 1, py);
                }
                if x < width - 1 {
                    lemma_queued_extends(q3, q5, px + 1, py);
                }
                if y > 0 {
                    lemma_queued_extends(q4, q5, px, py - 1);
                }
                assert forall|ax: int, ay: int| #[trigger] lit(w, h, out@, ax, ay) implies (ax == px
                    && ay == py) || lit(w, h, marks, ax, ay) by {
                    lemma_pixel_index(w, h, ax, ay);
                }
                assert forall|ax: int, ay: int| #[trigger] lit(w, h, marks, ax, ay) implies lit(
                    w,
                    h,
                    out@,
                    ax,
                    ay,
                ) by {
                    lemma_pixel_index(w, h, ax, ay);
                }
                if lit(w, h, img@, sx, sy) && !lit(w, h, out@, sx, sy) {
                    lemma_queued_behind(before, sx, sy);
                    lemma_queued_extends(q1, q5, sx, sy);
                }
                assert forall|ax: int, ay: int, bx: int, by: int|
                    lit(w, h, out@, ax, ay) && #[trigger] adjacent(ax, ay, bx, by) && lit(
                        w,
                        h,
                        img@,
                        bx,
                        by,
                    ) implies lit(w, h, out@, bx, by) || queued(q5, bx, by) by {
                    if !(ax == px && ay == py) && !lit(w, h, marks, bx, by) && !(bx == px && by
                        == py) {
                        lemma_queued_behind(before, bx, by);
                        lemma_queued_extends(q1, q5, bx, by);
                    }
                }
            }
        } else {
            proof {
                if lit(w, h, img@, sx, sy) && !lit(w, h, out@, sx, sy) {
                    lemma_queued_behind(before, sx, sy);
                }
                assert forall|ax: int, ay: int, bx: int, by: int|
                    lit(w, h, out@, ax, ay) && #[trigger] adjacent(ax, ay, bx, by) && lit(
                        w,
                        h,
                        img@,
                        bx,
                        by,
                    ) implies lit(w, h, out@, bx, by) || queued(q1, bx, by) by {
                    if !lit(w, h, out@, bx, by) {
                        lemma_queued_behind(before, bx, by);
                    }
                }
            }
        }
    }
    proof {
        // With the queue empty the marked pixels are closed under
        // foreground neighbours, so every walk from the seed stays marked.
        let marked = Set::new(|p: (int, int)| lit(w, h, out@, p.0, p.1));
        assert(closed_region(w, h, img@, marked)) by {
            assert forall|ax: int, ay: int, bx: int, by: int|
                marked.contains((ax, ay)) && #[trigger] adjacent(ax, ay, bx, by) && lit(
                    w,
                    h,
                    img@,
                    bx,
                    by,
                ) implies marked.contains((bx, by)) by {}
        }
        let target = component(w, h, img@, sx, sy);
        assert forall|i: int| 0 <= i < out@.len() implies out@[i] == target[i] by {
            lemma_index_pixel(w, h, i);
            let cx = column_of(w, i);
            let cy = row_of(w, i);
            if connected(w, h, img@, sx, sy, cx, cy) {
                let walk = choose|walk: Seq<(int, int)>| #[trigger]
                    joins(w, h, img@, walk, sx, sy, cx, cy);
                lemma_walk_within(w, h, img@, marked, walk, walk.len() - 1);
            }
            if out@[i] {
                assert(lit(w, h, out@, cx, cy));
            }
        }
        assert(out@ =~= target);
        assert forall|x: int, y: int| in_grid(w, h, x, y) implies out@[#[trigger] pixel_index(
            w,
            x,
            y,
        )] == connected(w, h, img@, sx, sy, x, y) by {
            lemma_pixel_index(w, h, x, y);
        }
    }
    out
}

/// Isolates the connected foreground region around a start pixel of the
/// grid. The fill starts at the start pixel where it is foreground, else
/// at the nearest foreground pixel that the search finds; where it finds
/// none, the result has no foreground.
pub fn flood_fill(width: usize, height: usize, img: &[bool], start_x: usize, start_y: usize) -> (out:
    Vec<bool>)
    requires
        img@.len() == width * height,
        start_x < width,
        start_y < height,
    ensures
        out@ == isolated(width as int, height as int, img@, start_x as int, start_y as int),
        out@.len() == img@.len(),
{
    match nearest_seed(width, height, img, start_x, start_y) {
        Some(seed) => fill_component(width, height, img, seed.0, seed.1),
        None => blank_mask(img.len()),
    }
}

} // verus!
