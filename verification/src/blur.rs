//! Box blurs of RGBA rasters: the separable sliding-window blur with edge
//! replication, and the 3x3 average that shrinks its window at the borders.
use vstd::prelude::*;

use crate::raster::{
    lemma_pix_in_raster, lemma_pix_injective, lemma_raster_dims, line_fn, line_index, line_pos, pix,
    pixel_offset, raster_len, copy_alpha, write_pixel, lemma_pixel_blocks_apart,
};
use crate::sums::{
    clamp, clamped_sum, lemma_clamped_sum_bytes, lemma_clamped_sum_congruent,
    lemma_clamped_sum_left_of_zero, lemma_clamped_sum_slide, lemma_range_sum_constant, range_sum,
    window_hi, window_lo,
};

verus! {

/// Horizontal pass of the box blur of radius `r`: the mean of the `2r + 1`
/// samples of row `y` centred on `x`, reading the edge pixel past either end,
/// rounded down.
pub open spec fn hblur(s: Seq<u8>, w: int, r: int, x: int, y: int, c: int) -> int {
    clamped_sum(line_fn(s, w, false, y, c), w, x - r, x + r + 1) / (2 * r + 1)
}

/// The separable box blur of radius `r`: the vertical mean, with the same edge
/// rule, of the horizontal pass.
pub open spec fn box_blur_value(s: Seq<u8>, w: int, h: int, r: int, x: int, y: int, c: int) -> int {
    clamped_sum(|j: int| hblur(s, w, r, x, j, c), h, y - r, y + r + 1) / (2 * r + 1)
}

/// The blur radii whose window sums fit the 32-bit accumulators.
pub open spec fn radius_fits(r: int) -> bool {
    0 <= r && (2 * r + 2) * 255 <= u32::MAX
}

proof fn lemma_mean_is_byte(sum: int, d: int)
    requires
        0 < d,
        0 <= sum <= 255 * d,
    ensures
        0 <= sum / d <= 255,
{
    assert(0 <= sum / d <= 255) by (nonlinear_arith)
        requires
            0 < d,
            0 <= sum <= 255 * d,
    ;
}

/// Blurs one channel along one line with a sliding window of radius `r`,
/// writing the means into `dst` and leaving every other byte of `dst` alone.
fn box_blur_line(
    src: &[u8],
    dst: &mut [u8],
    w: usize,
    h: usize,
    vertical: bool,
    fixed: usize,
    c: usize,
    r: usize,
)
    requires
        c < 4,
        vertical ==> fixed < w && 0 < h,
        !vertical ==> fixed < h && 0 < w,
        raster_len(w as int, h as int) <= src@.len(),
        raster_len(w as int, h as int) <= old(dst)@.len(),
        radius_fits(r as int),
    ensures
        final(dst)@.len() == old(dst)@.len(),
        forall|k: int|
            0 <= k < (if vertical { h } else { w }) ==> #[trigger] final(dst)@[line_pos(
                w as int,
                vertical,
                fixed as int,
                k,
                c as int,
            )] == clamped_sum(
                line_fn(src@, w as int, vertical, fixed as int, c as int),
                (if vertical { h } else { w }) as int,
                k - r,
                k + r + 1,
            ) / (2 * r + 1),
        forall|i: int|
            0 <= i < old(dst)@.len() && (forall|k: int|
                0 <= k < (if vertical { h } else { w }) ==> i != #[trigger] line_pos(
                    w as int,
                    vertical,
                    fixed as int,
                    k,
                    c as int,
                )) ==> final(dst)@[i] == old(dst)@[i],
{
    let n: usize = if vertical {
        h
    } else {
        w
    };
    let ghost f = line_fn(src@, w as int, vertical, fixed as int, c as int);
    let ghost d0 = old(dst)@;
    proof {
        lemma_raster_dims(w as int, h as int);
        assert forall|i: int| 0 <= i < n implies 0 <= #[trigger] f(i) <= 255 by {}
        lemma_clamped_sum_left_of_zero(f, n as int, r as int);
    }
    let src_len = src.len();
    proof {
        assert(raster_len(w as int, h as int) <= src_len);
    }
    let div: u32 = (2 * r + 1) as u32;
    let first = line_index(w, h, vertical, fixed, 0, c);
    let first_value = src[first];
    proof {
        assert(r * first_value <= r * 255) by (nonlinear_arith)
            requires
                0 <= r,
                first_value <= 255,
        ;
    }
    let mut sum: u32 = (r as u32) * (first_value as u32);
    let mut x: usize = 0;
    while x <= r
        invariant
            x <= r + 1,
            0 < n,
            n == (if vertical { h } else { w }),
            f == line_fn(src@, w as int, vertical, fixed as int, c as int),
            forall|i: int| 0 <= i < n ==> 0 <= #[trigger] f(i) <= 255,
            radius_fits(r as int),
            c < 4,
            vertical ==> fixed < w,
            !vertical ==> fixed < h,
            raster_len(w as int, h as int) <= src@.len(),
            raster_len(w as int, h as int) <= usize::MAX,
            sum == clamped_sum(f, n as int, -(r as int), x as int),
        decreases r + 1 - x,
    {
        proof {
            if x > 0 {
                lemma_clamped_sum_bytes(f, n as int, -(r as int), x as int);
            } else {
                lemma_clamped_sum_left_of_zero(f, n as int, r as int);
                assert(r * f(0) <= r * 255) by (nonlinear_arith)
                    requires
                        0 <= f(0) <= 255,
                        0 <= r,
                ;
            }
        }
        let k = if x < n - 1 {
            x
        } else {
            n - 1
        };
        let i = line_index(w, h, vertical, fixed, k, c);
        sum = sum + src[i] as u32;
        x = x + 1;
    }
    let mut k: usize = 0;
    while k < n
        invariant
            k <= n,
            0 < n,
            n == (if vertical { h } else { w }),
            4 * n <= raster_len(w as int, h as int),
            f == line_fn(src@, w as int, vertical, fixed as int, c as int),
            forall|i: int| 0 <= i < n ==> 0 <= #[trigger] f(i) <= 255,
            radius_fits(r as int),
            div == 2 * r + 1,
            c < 4,
            vertical ==> fixed < w,
            !vertical ==> fixed < h,
            raster_len(w as int, h as int) <= src@.len(),
            raster_len(w as int, h as int) <= dst@.len(),
            raster_len(w as int, h as int) <= usize::MAX,
            dst@.len() == d0.len(),
            sum == clamped_sum(f, n as int, k - r, k + r + 1),
            forall|j: int|
                0 <= j < k ==> #[trigger] dst@[line_pos(w as int, vertical, fixed as int, j, c as int)]
                    == clamped_sum(f, n as int, j - r, j + r + 1) / (2 * r + 1),
            forall|i: int|
                0 <= i < d0.len() && (forall|j: int|
                    0 <= j < n ==> i != #[trigger] line_pos(
                        w as int,
                        vertical,
                        fixed as int,
                        j,
                        c as int,
                    )) ==> dst@[i] == d0[i],
        decreases n - k,
    {
        proof {
            lemma_clamped_sum_bytes(f, n as int, k - r, k + r + 1);
            lemma_mean_is_byte(sum as int, div as int);
        }
        let here = line_index(w, h, vertical, fixed, k, c);
        let mean = sum / div;
        let ghost prev_dst = dst@;
        dst[here] = mean as u8;
        proof {
            assert(mean == clamped_sum(f, n as int, k - r, k + r + 1) / (2 * r + 1));
            assert(dst@[line_pos(w as int, vertical, fixed as int, k as int, c as int)] == mean);
            assert forall|j: int| 0 <= j < k implies line_pos(
                w as int,
                vertical,
                fixed as int,
                j,
                c as int,
            ) != here by {
                if vertical {
                    if pix(w as int, fixed as int, j, c as int) == here {
                        lemma_pix_injective(w as int, fixed as int, j, c as int, fixed as int, k as int, c as int);
                    }
                } else {
                    if pix(w as int, j, fixed as int, c as int) == here {
                        lemma_pix_injective(w as int, j, fixed as int, c as int, k as int, fixed as int, c as int);
                    }
                }
            }
        }
        let next_k = if k + 1 + r < n - 1 {
            k + 1 + r
        } else {
            n - 1
        };
        let prev_k = if k >= r {
            k - r
        } else {
            0
        };
        let next = line_index(w, h, vertical, fixed, next_k, c);
        let prev = line_index(w, h, vertical, fixed, prev_k, c);
        proof {
            lemma_clamped_sum_slide(f, n as int, k - r, k + r + 1);
            assert(next_k == clamp(k + r + 1, n as int));
            assert(prev_k == clamp(k - r, n as int));
        }
        sum = sum + src[next] as u32 - src[prev] as u32;
        proof {
            assert forall|j: int| 0 <= j < k + 1 implies #[trigger] dst@[line_pos(w as int, vertical, fixed as int, j, c as int)]
                    == clamped_sum(f, n as int, j - r, j + r + 1) / (2 * r + 1) by {
                if j < k {
                    if vertical {
                        lemma_pix_in_raster(w as int, h as int, fixed as int, j, c as int);
                    } else {
                        lemma_pix_in_raster(w as int, h as int, j, fixed as int, c as int);
                    }
                    assert(line_pos(w as int, vertical, fixed as int, j, c as int) != here);
                    assert(prev_dst[line_pos(w as int, vertical, fixed as int, j, c as int)]
                        == clamped_sum(f, n as int, j - r, j + r + 1) / (2 * r + 1));
                } else {
                    assert(j == k);
                    assert(dst@[line_pos(w as int, vertical, fixed as int, j, c as int)] == mean);
                    assert(mean == clamped_sum(f, n as int, j - r, j + r + 1) / (2 * r + 1));
                }
            }
        }
        k = k + 1;
    }
}

/// Blurs an RGBA raster with a box of radius `radius`, first along rows then
/// along columns, reading the edge pixel past either border; alpha is copied.
pub fn fast_box_blur_rgba(src: &[u8], dst: &mut [u8], w: usize, h: usize, radius: usize)
    requires
        raster_len(w as int, h as int) <= src@.len(),
        raster_len(w as int, h as int) <= old(dst)@.len(),
        (w == 0) == (h == 0),
        radius_fits(radius as int),
    ensures
        final(dst)@.len() == old(dst)@.len(),
        forall|x: int, y: int, c: int|
            0 <= x < w && 0 <= y < h && 0 <= c < 3 ==> #[trigger] final(dst)@[pix(
                w as int,
                x,
                y,
                c,
            )] == box_blur_value(src@, w as int, h as int, radius as int, x, y, c),
        forall|x: int, y: int|
            0 <= x < w && 0 <= y < h ==> #[trigger] final(dst)@[pix(w as int, x, y, 3)] == src@[pix(
                w as int,
                x,
                y,
                3,
            )],
        forall|i: int|
            raster_len(w as int, h as int) <= i < old(dst)@.len() ==> final(dst)@[i] == old(
                dst,
            )@[i],
{
    let ghost d0 = old(dst)@;
    let ghost r = radius as int;
    let mut temp: Vec<u8> = vec![0u8; src.len()];
    let mut y: usize = 0;
    while y < h
        invariant
            y <= h,
            temp@.len() == src@.len(),
            raster_len(w as int, h as int) <= src@.len(),
            (w == 0) == (h == 0),
            radius_fits(radius as int),
            r == radius as int,
            forall|x: int, yy: int, c: int|
                0 <= x < w && 0 <= yy < y && 0 <= c < 3 ==> #[trigger] temp@[pix(w as int, x, yy, c)]
                    == hblur(src@, w as int, r, x, yy, c),
        decreases h - y,
    {
        let mut c: usize = 0;
        while c < 3
            invariant
                y < h,
                c <= 3,
                temp@.len() == src@.len(),
                raster_len(w as int, h as int) <= src@.len(),
                0 < w,
                radius_fits(radius as int),
                r == radius as int,
                forall|x: int, yy: int, cc: int|
                    0 <= x < w && 0 <= cc < 3 && (0 <= yy < y || (yy == y && cc < c))
                        ==> #[trigger] temp@[pix(w as int, x, yy, cc)] == hblur(
                        src@,
                        w as int,
                        r,
                        x,
                        yy,
                        cc,
                    ),
            decreases 3 - c,
        {
            let ghost before = temp@;
            box_blur_line(src, temp.as_mut_slice(), w, h, false, y, c, radius);
            proof {
                assert forall|x: int, yy: int, cc: int|
                    0 <= x < w && 0 <= cc < 3 && (0 <= yy < y || (yy == y && cc < c + 1))
                        implies #[trigger] temp@[pix(w as int, x, yy, cc)] == hblur(
                        src@,
                        w as int,
                        r,
                        x,
                        yy,
                        cc,
                    ) by {
                    if yy == y && cc == c {
                        assert(temp@[line_pos(w as int, false, y as int, x, c as int)]
                            == clamped_sum(
                            line_fn(src@, w as int, false, y as int, c as int),
                            w as int,
                            x - r,
                            x + r + 1,
                        ) / (2 * r + 1));
                    } else {
                        lemma_pix_in_raster(w as int, h as int, x, yy, cc);
                        assert forall|k: int| 0 <= k < w implies pix(w as int, x, yy, cc)
                            != #[trigger] line_pos(w as int, false, y as int, k, c as int) by {
                            if pix(w as int, x, yy, cc) == pix(w as int, k, y as int, c as int) {
                                lemma_pix_injective(w as int, x, yy, cc, k, y as int, c as int);
                            }
                        }
                        assert(temp@[pix(w as int, x, yy, cc)] == before[pix(w as int, x, yy, cc)]);
                    }
                }
            }
            c = c + 1;
        }
        y = y + 1;
    }
    let mut x: usize = 0;
    while x < w
        invariant
            x <= w,
            temp@.len() == src@.len(),
            raster_len(w as int, h as int) <= src@.len(),
            raster_len(w as int, h as int) <= dst@.len(),
            dst@.len() == d0.len(),
            (w == 0) == (h == 0),
            radius_fits(radius as int),
            r == radius as int,
            forall|xx: int, yy: int, c: int|
                0 <= xx < w && 0 <= yy < h && 0 <= c < 3 ==> #[trigger] temp@[pix(
                    w as int,
                    xx,
                    yy,
                    c,
                )] == hblur(src@, w as int, r, xx, yy, c),
            forall|xx: int, yy: int, c: int|
                0 <= xx < x && 0 <= yy < h && 0 <= c < 3 ==> #[trigger] dst@[pix(w as int, xx, yy, c)]
                    == box_blur_value(src@, w as int, h as int, r, xx, yy, c),
            forall|i: int| raster_len(w as int, h as int) <= i < d0.len() ==> dst@[i] == d0[i],
        decreases w - x,
    {
        let mut c: usize = 0;
        while c < 3
            invariant
                x < w,
                0 < h,
                c <= 3,
                temp@.len() == src@.len(),
                raster_len(w as int, h as int) <= src@.len(),
                raster_len(w as int, h as int) <= dst@.len(),
                dst@.len() == d0.len(),
                radius_fits(radius as int),
                r == radius as int,
                forall|xx: int, yy: int, cc: int|
                    0 <= xx < w && 0 <= yy < h && 0 <= cc < 3 ==> #[trigger] temp@[pix(
                        w as int,
                        xx,
                        yy,
                        cc,
                    )] == hblur(src@, w as int, r, xx, yy, cc),
                forall|xx: int, yy: int, cc: int|
                    0 <= yy < h && 0 <= cc < 3 && (0 <= xx < x || (xx == x && cc < c))
                        ==> #[trigger] dst@[pix(w as int, xx, yy, cc)] == box_blur_value(
                        src@,
                        w as int,
                        h as int,
                        r,
                        xx,
                        yy,
                        cc,
                    ),
                forall|i: int| raster_len(w as int, h as int) <= i < d0.len() ==> dst@[i] == d0[i],
            decreases 3 - c,
        {
            let ghost before = dst@;
            box_blur_line(temp.as_slice(), dst, w, h, true, x, c, radius);
            proof {
                let g = line_fn(temp@, w as int, true, x as int, c as int);
                let hb = |j: int| hblur(src@, w as int, r, x as int, j, c as int);
                assert forall|j: int| 0 <= j < h implies #[trigger] g(j) == hb(j) by {
                    assert(temp@[pix(w as int, x as int, j, c as int)] == hblur(
                        src@,
                        w as int,
                        r,
                        x as int,
                        j,
                        c as int,
                    ));
                }
                assert forall|xx: int, yy: int, cc: int|
                    0 <= yy < h && 0 <= cc < 3 && (0 <= xx < x || (xx == x && cc < c + 1))
                        implies #[trigger] dst@[pix(w as int, xx, yy, cc)] == box_blur_value(
                        src@,
                        w as int,
                        h as int,
                        r,
                        xx,
                        yy,
                        cc,
                    ) by {
                    if xx == x && cc == c {
                        lemma_clamped_sum_congruent(g, hb, h as int, yy - r, yy + r + 1);
                        assert(dst@[line_pos(w as int, true, x as int, yy, c as int)]
                            == clamped_sum(g, h as int, yy - r, yy + r + 1) / (2 * r + 1));
                    } else {
                        lemma_pix_in_raster(w as int, h as int, xx, yy, cc);
                        assert forall|k: int| 0 <= k < h implies pix(w as int, xx, yy, cc)
                            != #[trigger] line_pos(w as int, true, x as int, k, c as int) by {
                            if pix(w as int, xx, yy, cc) == pix(w as int, x as int, k, c as int) {
                                lemma_pix_injective(w as int, xx, yy, cc, x as int, k, c as int);
                            }
                        }
                        assert(dst@[pix(w as int, xx, yy, cc)] == before[pix(w as int, xx, yy, cc)]);
                    }
                }
                assert forall|i: int| raster_len(w as int, h as int) <= i < d0.len() implies dst@[i]
                    == d0[i] by {
                    assert forall|k: int| 0 <= k < h implies i != #[trigger] line_pos(
                        w as int,
                        true,
                        x as int,
                        k,
                        c as int,
                    ) by {
                        lemma_pix_in_raster(w as int, h as int, x as int, k, c as int);
                    }
                }
            }
            c = c + 1;
        }
        x = x + 1;
    }
    copy_alpha(src, dst, w, h);
}


/// Sum of channel `c` over columns `x0..x1` of row `y`.
pub open spec fn row_sum(s: Seq<u8>, w: int, c: int, y: int, x0: int, x1: int) -> int {
    range_sum(|px: int| s[pix(w, px, y, c)] as int, x0, x1)
}

/// Sum of channel `c` over the rectangle `x0..x1` by `y0..y1`.
pub open spec fn rect_sum(s: Seq<u8>, w: int, c: int, x0: int, x1: int, y0: int, y1: int) -> int {
    range_sum(|py: int| row_sum(s, w, c, py, x0, x1), y0, y1)
}

/// The 3x3 mean of channel `c` around `(x, y)`, rounded down; at the border
/// only the pixels inside the raster are averaged.
pub open spec fn box3_value(s: Seq<u8>, w: int, h: int, x: int, y: int, c: int) -> int {
    let x0 = window_lo(x, 1);
    let x1 = window_hi(x, 1, w);
    let y0 = window_lo(y, 1);
    let y1 = window_hi(y, 1, h);
    rect_sum(s, w, c, x0, x1, y0, y1) / ((x1 - x0) * (y1 - y0))
}

fn mean3x3(src: &[u8], w: usize, h: usize, x: usize, y: usize, c: usize) -> (m: u8)
    requires
        x < w,
        y < h,
        c < 4,
        raster_len(w as int, h as int) <= src@.len(),
    ensures
        m == box3_value(src@, w as int, h as int, x as int, y as int, c as int),
{
    let ghost x0 = window_lo(x as int, 1);
    let ghost x1 = window_hi(x as int, 1, w as int);
    let ghost y0 = window_lo(y as int, 1);
    let ghost y1 = window_hi(y as int, 1, h as int);
    let src_len = src.len();
    let xs: usize = if x >= 1 {
        x - 1
    } else {
        0
    };
    let xe: usize = if x + 1 < w - 1 {
        x + 2
    } else {
        w
    };
    let ys: usize = if y >= 1 {
        y - 1
    } else {
        0
    };
    let ye: usize = if y + 1 < h - 1 {
        y + 2
    } else {
        h
    };
    assert(xs == x0 && xe == x1 && ys == y0 && ye == y1);
    let mut sum: u32 = 0;
    let mut count: u32 = 0;
    let mut py: usize = ys;
    while py < ye
        invariant
            ys <= py <= ye <= h,
            ye <= ys + 3,
            xs < xe <= w,
            xe <= xs + 3,
            c < 4,
            raster_len(w as int, h as int) <= src@.len(),
            src_len == src@.len(),
            sum == rect_sum(src@, w as int, c as int, xs as int, xe as int, ys as int, py as int),
            sum <= 255 * count,
            count == (xe - xs) * (py - ys),
        decreases ye - py,
    {
        let mut px: usize = xs;
        let mut row: u32 = 0;
        while px < xe
            invariant
                xs <= px <= xe <= w,
                xe <= xs + 3,
                py < h,
                c < 4,
                raster_len(w as int, h as int) <= src@.len(),
                src_len == src@.len(),
                row == row_sum(src@, w as int, c as int, py as int, xs as int, px as int),
                row <= 255 * (px - xs),
            decreases xe - px,
        {
            let i = pixel_offset(w, h, px, py, c);
            row = row + src[i] as u32;
            px = px + 1;
        }
        proof {
            assert((xe - xs) * (py + 1 - ys) == (xe - xs) * (py - ys) + (xe - xs)) by (nonlinear_arith);
            assert((xe - xs) * (py - ys) <= 3 * 3) by (nonlinear_arith)
                requires
                    0 <= xe - xs <= 3,
                    0 <= py - ys < 3,
            ;
        }
        sum = sum + row;
        count = count + (xe - xs) as u32;
        py = py + 1;
    }
    proof {
        assert(count > 0) by (nonlinear_arith)
            requires
                count == (xe - xs) * (ye - ys),
                ys < ye,
                xs < xe,
        ;
        assert(sum / count <= 255) by (nonlinear_arith)
            requires
                count > 0,
                sum <= 255 * count,
        ;
    }
    (sum / count) as u8
}


/// Blurs an RGBA raster with a 3x3 mean that shrinks at the borders to the
/// pixels inside the raster; alpha is copied.
pub fn blur_rgba(src: &[u8], dst: &mut [u8], w: usize, h: usize)
    requires
        raster_len(w as int, h as int) <= src@.len(),
        raster_len(w as int, h as int) <= old(dst)@.len(),
    ensures
        final(dst)@.len() == old(dst)@.len(),
        forall|x: int, y: int, c: int|
            0 <= x < w && 0 <= y < h && 0 <= c < 3 ==> #[trigger] final(dst)@[pix(w as int, x, y, c)]
                == box3_value(src@, w as int, h as int, x, y, c),
        forall|x: int, y: int|
            0 <= x < w && 0 <= y < h ==> #[trigger] final(dst)@[pix(w as int, x, y, 3)] == src@[pix(
                w as int,
                x,
                y,
                3,
            )],
        forall|i: int|
            raster_len(w as int, h as int) <= i < old(dst)@.len() ==> final(dst)@[i] == old(
                dst,
            )@[i],
{
    let ghost d0 = old(dst)@;
    let src_len = src.len();
    let mut y: usize = 0;
    while y < h
        invariant
            y <= h,
            raster_len(w as int, h as int) <= src@.len(),
            src_len == src@.len(),
            raster_len(w as int, h as int) <= dst@.len(),
            dst@.len() == d0.len(),
            forall|xx: int, yy: int, c: int|
                0 <= xx < w && 0 <= yy < y && 0 <= c < 4 ==> #[trigger] dst@[pix(w as int, xx, yy, c)]
                    == blurred_byte(src@, w as int, h as int, xx, yy, c),
            forall|i: int| raster_len(w as int, h as int) <= i < d0.len() ==> dst@[i] == d0[i],
        decreases h - y,
    {
        let mut x: usize = 0;
        while x < w
            invariant
                y < h,
                x <= w,
                raster_len(w as int, h as int) <= src@.len(),
                src_len == src@.len(),
                raster_len(w as int, h as int) <= dst@.len(),
                dst@.len() == d0.len(),
                forall|xx: int, yy: int, c: int|
                    0 <= xx < w && 0 <= yy < h && 0 <= c < 4 && (yy < y || (yy == y && xx < x))
                        ==> #[trigger] dst@[pix(w as int, xx, yy, c)] == blurred_byte(
                        src@,
                        w as int,
                        h as int,
                        xx,
                        yy,
                        c,
                    ),
                forall|i: int| raster_len(w as int, h as int) <= i < d0.len() ==> dst@[i] == d0[i],
            decreases w - x,
        {
            let r = mean3x3(src, w, h, x, y, 0);
            let g = mean3x3(src, w, h, x, y, 1);
            let b = mean3x3(src, w, h, x, y, 2);
            let ai = pixel_offset(w, h, x, y, 3);
            let a = src[ai];
            let ghost prev = dst@;
            write_pixel(dst, w, h, x, y, [r, g, b, a]);
            proof {
                assert forall|xx: int, yy: int, c: int|
                    0 <= xx < w && 0 <= yy < h && 0 <= c < 4 && (yy < y || (yy == y && xx < x + 1))
                        implies #[trigger] dst@[pix(w as int, xx, yy, c)] == blurred_byte(
                        src@,
                        w as int,
                        h as int,
                        xx,
                        yy,
                        c,
                    ) by {
                    lemma_pix_in_raster(w as int, h as int, xx, yy, c);
                    if xx == x && yy == y {
                        assert(dst@[pix(w as int, x as int, y as int, c)] == [r, g, b, a]@[c]);
                    } else {
                        lemma_pixel_blocks_apart(w as int, xx, yy, x as int, y as int, c);
                        assert(prev[pix(w as int, xx, yy, c)] == blurred_byte(
                            src@,
                            w as int,
                            h as int,
                            xx,
                            yy,
                            c,
                        ));
                    }
                }
                assert forall|i: int| raster_len(w as int, h as int) <= i < d0.len() implies dst@[i]
                    == d0[i] by {
                    lemma_pix_in_raster(w as int, h as int, x as int, y as int, 3);
                    assert(prev[i] == d0[i]);
                }
            }
            x = x + 1;
        }
        y = y + 1;
    }
}

/// Byte `c` of pixel `(x, y)` after the 3x3 blur.
pub open spec fn blurred_byte(s: Seq<u8>, w: int, h: int, x: int, y: int, c: int) -> int {
    if c == 3 {
        s[pix(w, x, y, 3)] as int
    } else {
        box3_value(s, w, h, x, y, c)
    }
}


/// Response of channel `c` at `(x, y)` to the 3x3 sharpening kernel
/// `[0, -1, 0; -1, 5, -1; 0, -1, 0]`.
pub open spec fn sharpen_value(s: Seq<u8>, w: int, x: int, y: int, c: int) -> int {
    5 * s[pix(w, x, y, c)] - s[pix(w, x - 1, y, c)] - s[pix(w, x + 1, y, c)] - s[pix(w, x, y - 1, c)]
        - s[pix(w, x, y + 1, c)]
}

/// The sharpening kernel's response at an inner pixel, before it is mixed
/// with the pixel itself.
pub fn sharpen_response(src: &[u8], w: usize, h: usize, x: usize, y: usize, c: usize) -> (r: i32)
    requires
        0 < x,
        x + 1 < w,
        0 < y,
        y + 1 < h,
        c < 3,
        raster_len(w as int, h as int) <= src@.len(),
    ensures
        r == sharpen_value(src@, w as int, x as int, y as int, c as int),
        -4 * 255 <= r <= 5 * 255,
{
    let centre = src[pixel_offset(w, h, x, y, c)] as i32;
    let left = src[pixel_offset(w, h, x - 1, y, c)] as i32;
    let right = src[pixel_offset(w, h, x + 1, y, c)] as i32;
    let up = src[pixel_offset(w, h, x, y - 1, c)] as i32;
    let down = src[pixel_offset(w, h, x, y + 1, c)] as i32;
    5 * centre - left - right - up - down
}


proof fn lemma_clamped_mean_of_constant(f: spec_fn(int) -> int, n: int, k: int, r: int, v: int)
    requires
        0 < n,
        0 <= r,
        forall|i: int| 0 <= i < n ==> #[trigger] f(i) == v,
    ensures
        clamped_sum(f, n, k - r, k + r + 1) / (2 * r + 1) == v,
{
    let g = |i: int| f(clamp(i, n));
    assert forall|i: int| k - r <= i < k + r + 1 implies #[trigger] g(i) == v by {
        assert(0 <= clamp(i, n) < n);
    }
    lemma_range_sum_constant(g, k - r, k + r + 1, v);
    assert((v * (k + r + 1 - (k - r))) / (2 * r + 1) == v) by (nonlinear_arith)
        requires
            0 <= r,
    ;
}

/// The separable box blur leaves a channel of uniform value unchanged.
pub proof fn lemma_box_blur_uniform(s: Seq<u8>, w: int, h: int, r: int, c: int, v: int)
    requires
        0 < w,
        0 < h,
        0 <= r,
        forall|x: int, y: int| 0 <= x < w && 0 <= y < h ==> #[trigger] s[pix(w, x, y, c)] == v,
    ensures
        forall|x: int, y: int| 0 <= x < w && 0 <= y < h ==> #[trigger] box_blur_value(s, w, h, r, x, y, c) == v,
{
    assert forall|x: int, y: int| 0 <= x < w && 0 <= y < h implies #[trigger] box_blur_value(
        s,
        w,
        h,
        r,
        x,
        y,
        c,
    ) == v by {
        let hb = |j: int| hblur(s, w, r, x, j, c);
        assert forall|j: int| 0 <= j < h implies #[trigger] hb(j) == v by {
            let f = line_fn(s, w, false, j, c);
            assert forall|i: int| 0 <= i < w implies #[trigger] f(i) == v by {
                assert(s[pix(w, i, j, c)] == v);
            }
            lemma_clamped_mean_of_constant(f, w, x, r, v);
        }
        lemma_clamped_mean_of_constant(hb, h, y, r, v);
    }
}

/// The 3x3 blur leaves a channel of uniform value unchanged.
pub proof fn lemma_box3_uniform(s: Seq<u8>, w: int, h: int, c: int, v: int)
    requires
        forall|x: int, y: int| 0 <= x < w && 0 <= y < h ==> #[trigger] s[pix(w, x, y, c)] == v,
    ensures
        forall|x: int, y: int| 0 <= x < w && 0 <= y < h ==> #[trigger] box3_value(s, w, h, x, y, c) == v,
{
    assert forall|x: int, y: int| 0 <= x < w && 0 <= y < h implies #[trigger] box3_value(
        s,
        w,
        h,
        x,
        y,
        c,
    ) == v by {
        let x0 = window_lo(x, 1);
        let x1 = window_hi(x, 1, w);
        let y0 = window_lo(y, 1);
        let y1 = window_hi(y, 1, h);
        let rows = |py: int| row_sum(s, w, c, py, x0, x1);
        assert forall|py: int| y0 <= py < y1 implies #[trigger] rows(py) == v * (x1 - x0) by {
            let f = |px: int| s[pix(w, px, py, c)] as int;
            assert forall|px: int| x0 <= px < x1 implies #[trigger] f(px) == v by {
                assert(s[pix(w, px, py, c)] == v);
            }
            lemma_range_sum_constant(f, x0, x1, v);
        }
        lemma_range_sum_constant(rows, y0, y1, v * (x1 - x0));
        assert((v * (x1 - x0) * (y1 - y0)) / ((x1 - x0) * (y1 - y0)) == v) by (nonlinear_arith)
            requires
                x0 < x1,
                y0 < y1,
        ;
    }
}


/// A box blur of radius zero leaves every colour byte as it was.
pub proof fn lemma_box_blur_radius_zero(s: Seq<u8>, w: int, h: int, x: int, y: int, c: int)
    requires
        0 <= x < w,
        0 <= y < h,
    ensures
        box_blur_value(s, w, h, 0, x, y, c) == s[pix(w, x, y, c)],
{
    reveal_with_fuel(range_sum, 2);
    let f = line_fn(s, w, false, y, c);
    let g = |i: int| f(clamp(i, w));
    assert(range_sum(g, x, x + 1) == g(x));
    assert(g(x) == s[pix(w, x, y, c)] as int);
    assert(clamped_sum(f, w, x - 0, x + 0 + 1) == range_sum(g, x, x + 1));
    let v = g(x);
    assert(v / (2 * 0int + 1) == v) by (nonlinear_arith);
    assert(clamped_sum(f, w, x - 0, x + 0 + 1) / (2 * 0int + 1) == g(x));
    assert(hblur(s, w, 0, x, y, c) == s[pix(w, x, y, c)] as int);
    let hb = |j: int| hblur(s, w, 0, x, j, c);
    let gb = |j: int| hb(clamp(j, h));
    assert(range_sum(gb, y, y + 1) == gb(y));
    assert(gb(y) == hblur(s, w, 0, x, y, c));
    assert(clamped_sum(hb, h, y - 0, y + 0 + 1) == range_sum(gb, y, y + 1));
    let vb = gb(y);
    assert(vb / (2 * 0int + 1) == vb) by (nonlinear_arith);
}


/// The box mean of radius `r` of a profile `f` on `0..n`, reading the end
/// value past either end.
pub open spec fn profile_mean(f: spec_fn(int) -> int, n: int, r: int, k: int) -> int {
    clamped_sum(f, n, k - r, k + r + 1) / (2 * r + 1)
}

/// The blur treats both directions alike, with the same radius: an image whose
/// channel varies only along `x` by a profile `f` (`s`, `w` by `h`) and the
/// transposed image, which varies only along `y` by `f` (`t`, `h` by `w`), both
/// blur to the box mean of `f` of radius `r`, at transposed places.
pub proof fn lemma_box_blur_profile(
    s: Seq<u8>,
    t: Seq<u8>,
    f: spec_fn(int) -> int,
    w: int,
    h: int,
    r: int,
    c: int,
)
    requires
        0 < w,
        0 < h,
        0 <= r,
        forall|x: int, y: int| 0 <= x < w && 0 <= y < h ==> #[trigger] s[pix(w, x, y, c)] == f(x),
        forall|x: int, y: int| 0 <= x < w && 0 <= y < h ==> #[trigger] t[pix(h, y, x, c)] == f(x),
    ensures
        forall|x: int, y: int|
            0 <= x < w && 0 <= y < h ==> #[trigger] box_blur_value(s, w, h, r, x, y, c)
                == profile_mean(f, w, r, x),
        forall|x: int, y: int|
            0 <= x < w && 0 <= y < h ==> #[trigger] box_blur_value(t, h, w, r, y, x, c)
                == profile_mean(f, w, r, x),
{
    assert forall|x: int, y: int| 0 <= x < w && 0 <= y < h implies #[trigger] box_blur_value(
        s,
        w,
        h,
        r,
        x,
        y,
        c,
    ) == profile_mean(f, w, r, x) by {
        let hb = |j: int| hblur(s, w, r, x, j, c);
        assert forall|j: int| 0 <= j < h implies #[trigger] hb(j) == profile_mean(f, w, r, x) by {
            let row = line_fn(s, w, false, j, c);
            assert forall|i: int| 0 <= i < w implies #[trigger] row(i) == f(i) by {
                assert(s[pix(w, i, j, c)] == f(i));
            }
            lemma_clamped_sum_congruent(row, f, w, x - r, x + r + 1);
        }
        lemma_clamped_mean_of_constant(hb, h, y, r, profile_mean(f, w, r, x));
    }
    assert forall|x: int, y: int| 0 <= x < w && 0 <= y < h implies #[trigger] box_blur_value(
        t,
        h,
        w,
        r,
        y,
        x,
        c,
    ) == profile_mean(f, w, r, x) by {
        let hb = |j: int| hblur(t, h, r, y, j, c);
        assert forall|j: int| 0 <= j < w implies #[trigger] hb(j) == f(j) by {
            let row = line_fn(t, h, false, j, c);
            assert forall|i: int| 0 <= i < h implies #[trigger] row(i) == f(j) by {
                assert(t[pix(h, i, j, c)] == f(j));
            }
            lemma_clamped_mean_of_constant(row, h, y, r, f(j));
        }
        lemma_clamped_sum_congruent(hb, f, w, x - r, x + r + 1);
    }
}

} // verus!
