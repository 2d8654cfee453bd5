//! Edge replication for single-channel rasters filtered with a 5x5 kernel:
//! the two-pixel frame that the kernel cannot reach copies the nearest pixel
//! it did reach.
use vstd::prelude::*;

verus! {

/// Index of cell `(x, y)` of a single-channel raster `w` cells wide.
pub open spec fn cell(w: int, x: int, y: int) -> int {
    y * w + x
}

/// `v` moved into `lo..=hi`.
pub open spec fn clamp_between(v: int, lo: int, hi: int) -> int {
    if v < lo {
        lo
    } else if v > hi {
        hi
    } else {
        v
    }
}

/// The cell whose value cell `(x, y)` holds after `replicate_borders`: the
/// nearest cell at least two cells away from every edge.
pub open spec fn border_source(w: int, h: int, x: int, y: int) -> int {
    cell(w, clamp_between(x, 2, w - 3), clamp_between(y, 2, h - 3))
}

pub proof fn lemma_cell_in_raster(w: int, h: int, x: int, y: int)
    requires
        0 <= x < w,
        0 <= y < h,
    ensures
        0 <= cell(w, x, y) < w * h,
{
    assert(0 <= y * w + x < w * h) by (nonlinear_arith)
        requires
            0 <= x < w,
            0 <= y < h,
    ;
}

pub proof fn lemma_cell_injective(w: int, x1: int, y1: int, x2: int, y2: int)
    requires
        0 <= x1 < w,
        0 <= x2 < w,
        0 <= y1,
        0 <= y2,
        cell(w, x1, y1) == cell(w, x2, y2),
    ensures
        x1 == x2 && y1 == y2,
{
    assert(y1 == y2) by (nonlinear_arith)
        requires
            y1 * w + x1 == y2 * w + x2,
            0 <= x1 < w,
            0 <= x2 < w,
            0 <= y1,
            0 <= y2,
    ;
}

fn cell_index(w: usize, h: usize, x: usize, y: usize) -> (i: usize)
    requires
        x < w,
        y < h,
        w * h <= usize::MAX,
    ensures
        i == cell(w as int, x as int, y as int),
        i < w * h,
{
    proof {
        lemma_cell_in_raster(w as int, h as int, x as int, y as int);
    }
    y * w + x
}

/// Value of cell `(x, y)` once the columns of the inner rows are replicated.
pub open spec fn sides_done<T>(s: Seq<T>, w: int, h: int, x: int, y: int) -> T {
    if 2 <= y < h - 2 {
        s[cell(w, clamp_between(x, 2, w - 3), y)]
    } else {
        s[cell(w, x, y)]
    }
}

proof fn lemma_cells_apart(w: int, h: int, x1: int, y1: int, x2: int, y2: int)
    requires
        0 <= x1 < w,
        0 <= x2 < w,
        0 <= y1 < h,
        0 <= y2 < h,
        x1 != x2 || y1 != y2,
    ensures
        cell(w, x1, y1) != cell(w, x2, y2),
        0 <= cell(w, x1, y1) < w * h,
{
    lemma_cell_in_raster(w, h, x1, y1);
    if cell(w, x1, y1) == cell(w, x2, y2) {
        lemma_cell_injective(w, x1, y1, x2, y2);
    }
}

/// Fills the outer two rows and columns of a `width` by `height` raster with
/// the nearest cell of the inner part (see `border_source`); the inner part,
/// two or more cells from every edge, is unchanged.
pub fn replicate_borders<T: Copy>(data: &mut Vec<T>, width: usize, height: usize)
    requires
        5 <= width,
        5 <= height,
        old(data)@.len() == width * height,
    ensures
        final(data)@.len() == old(data)@.len(),
        forall|x: int, y: int|
            0 <= x < width && 0 <= y < height ==> #[trigger] final(data)@[cell(width as int, x, y)]
                == old(data)@[border_source(width as int, height as int, x, y)],
{
    let ghost s0 = data@;
    let ghost w = width as int;
    let ghost h = height as int;
    let n = data.len();
    let wm = width - 2;
    let hm = height - 2;
    let mut i: usize = 2;
    while i < hm
        invariant
            2 <= i <= hm,
            hm == height - 2,
            wm == width - 2,
            5 <= width,
            5 <= height,
            w == width,
            h == height,
            data@.len() == width * height,
            n == width * height,
            s0.len() == width * height,
            forall|x: int, y: int|
                0 <= x < width && 0 <= y < height ==> #[trigger] data@[cell(w, x, y)] == if 2 <= y
                    < i {
                    sides_done(s0, w, h, x, y)
                } else {
                    s0[cell(w, x, y)]
                },
        decreases hm - i,
    {
        let ghost before = data@;
        let left = data[cell_index(width, height, 2, i)];
        let right = data[cell_index(width, height, wm - 1, i)];
        let c0 = cell_index(width, height, 0, i);
        let c1 = cell_index(width, height, 1, i);
        let c2 = cell_index(width, height, wm, i);
        let c3 = cell_index(width, height, wm + 1, i);
        data.set(c1, left);
        data.set(c0, left);
        data.set(c2, right);
        data.set(c3, right);
        proof {
            assert(left == s0[cell(w, 2, i as int)]);
            assert(right == s0[cell(w, wm - 1, i as int)]);
            assert forall|x: int, y: int| 0 <= x < width && 0 <= y < height implies #[trigger] data@[cell(
                w,
                x,
                y,
            )] == if 2 <= y < i + 1 {
                sides_done(s0, w, h, x, y)
            } else {
                s0[cell(w, x, y)]
            } by {
                lemma_cell_in_raster(w, h, x, y);
                if y == i && (x == 0 || x == 1 || x == wm || x == wm + 1) {
                } else {
                    lemma_cells_apart(w, h, x, y, 0, i as int);
                    lemma_cells_apart(w, h, x, y, 1, i as int);
                    lemma_cells_apart(w, h, x, y, wm as int, i as int);
                    lemma_cells_apart(w, h, x, y, wm + 1, i as int);
                    assert(data@[cell(w, x, y)] == before[cell(w, x, y)]);
                    if y == i {
                        assert(clamp_between(x, 2, w - 3) == x);
                    }
                }
            }
        }
        i = i + 1;
    }
    let ghost mid = data@;
    proof {
        assert(2 * width <= width * height && (hm - 1) * width <= width * height) by (nonlinear_arith)
            requires
                5 <= height,
                hm == height - 2,
                0 <= width,
        ;
    }
    let top = 2 * width;
    let upper_row = (hm - 1) * width;
    let mut j: usize = 0;
    while j < width
        invariant
            j <= width,
            hm == height - 2,
            wm == width - 2,
            5 <= width,
            5 <= height,
            w == width,
            h == height,
            data@.len() == width * height,
            n == width * height,
            s0.len() == width * height,
            top == cell(w, 0, 2),
            upper_row == cell(w, 0, hm - 1),
            forall|x: int, y: int|
                0 <= x < width && 0 <= y < height ==> #[trigger] mid[cell(w, x, y)] == sides_done(
                    s0,
                    w,
                    h,
                    x,
                    y,
                ),
            forall|x: int, y: int|
                0 <= x < width && 0 <= y < height ==> #[trigger] data@[cell(w, x, y)] == if x < j {
                    sides_done(s0, w, h, x, clamp_between(y, 2, h - 3))
                } else {
                    mid[cell(w, x, y)]
                },
        decreases width - j,
    {
        let ghost before = data@;
        proof {
            lemma_cell_in_raster(w, h, j as int, 2);
            lemma_cell_in_raster(w, h, j as int, hm - 1);
            lemma_cell_in_raster(w, h, j as int, hm + 1);
        }
        let v_top = data[top + j];
        let r1 = cell_index(width, height, j, 1);
        let r0 = cell_index(width, height, j, 0);
        data.set(r1, v_top);
        data.set(r0, v_top);
        let v_bottom = data[upper_row + j];
        let rb0 = cell_index(width, height, j, hm);
        let rb1 = cell_index(width, height, j, hm + 1);
        data.set(rb0, v_bottom);
        data.set(rb1, v_bottom);
        proof {
            assert(v_top == mid[cell(w, j as int, 2)]);
            lemma_cells_apart(w, h, j as int, hm - 1, j as int, 1);
            lemma_cells_apart(w, h, j as int, hm - 1, j as int, 0);
            assert(v_bottom == mid[cell(w, j as int, hm - 1)]);
            assert forall|x: int, y: int| 0 <= x < width && 0 <= y < height implies #[trigger] data@[cell(
                w,
                x,
                y,
            )] == if x < j + 1 {
                sides_done(s0, w, h, x, clamp_between(y, 2, h - 3))
            } else {
                mid[cell(w, x, y)]
            } by {
                lemma_cell_in_raster(w, h, x, y);
                if x == j && (y == 0 || y == 1 || y == hm || y == hm + 1) {
                    if y != 0 {
                        lemma_cells_apart(w, h, x, y, j as int, 0);
                    }
                    if y != 1 {
                        lemma_cells_apart(w, h, x, y, j as int, 1);
                    }
                    if y != hm {
                        lemma_cells_apart(w, h, x, y, j as int, hm as int);
                    }
                    if y != hm + 1 {
                        lemma_cells_apart(w, h, x, y, j as int, hm + 1);
                    }
                    assert(mid[cell(w, j as int, hm - 1)] == sides_done(s0, w, h, j as int, hm - 1));
                    assert(mid[cell(w, j as int, 2)] == sides_done(s0, w, h, j as int, 2));
                } else {
                    lemma_cells_apart(w, h, x, y, j as int, 0);
                    lemma_cells_apart(w, h, x, y, j as int, 1);
                    lemma_cells_apart(w, h, x, y, j as int, hm as int);
                    lemma_cells_apart(w, h, x, y, j as int, hm + 1);
                    assert(data@[cell(w, x, y)] == before[cell(w, x, y)]);
                }
            }
        }
        j = j + 1;
    }
    assert forall|x: int, y: int| 0 <= x < width && 0 <= y < height implies #[trigger] data@[cell(
        w,
        x,
        y,
    )] == s0[border_source(w, h, x, y)] by {
        assert(data@[cell(w, x, y)] == sides_done(s0, w, h, x, clamp_between(y, 2, h - 3)));
    }
}

} // verus!
