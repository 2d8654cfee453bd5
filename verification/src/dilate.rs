//! Separable RGBA dilation (local maximum), which estimates the paper
//! background under dark text.
use vstd::prelude::*;

use crate::raster::{
    copy_alpha, lemma_pix_in_raster, lemma_pix_injective, line_fn, line_index, line_pos, pix,
    raster_len,
};
use crate::sums::{
    lemma_range_max_congruent, lemma_range_max_is_max, lemma_range_max_monotone, range_max,
    window_hi, window_lo,
};

verus! {

/// Horizontal pass: the largest value of channel `c` of row `y` within `r`
/// pixels of `x`.
pub open spec fn hdilate(s: Seq<u8>, w: int, r: int, x: int, y: int, c: int) -> int {
    range_max(line_fn(s, w, false, y, c), window_lo(x, r), window_hi(x, r, w))
}

/// The dilation: the largest horizontal-pass value of column `x` within `r`
/// rows of `y`, which is the largest value in the `(2r + 1)`-square around
/// the pixel, cut at the borders.
pub open spec fn dilate_value(s: Seq<u8>, w: int, h: int, r: int, x: int, y: int, c: int) -> int {
    range_max(|j: int| hdilate(s, w, r, x, j, c), window_lo(y, r), window_hi(y, r, h))
}

/// Writes, for every step of one line of one channel, the largest value within
/// `r` steps; every other byte of `dst` is left alone.
fn dilate_line(
    src: &[u8],
    dst: &mut [u8],
    w: usize,
    h: usize,
    vertical: bool,
    fixed: usize,
    c: usize,
    r: usize,
)
    requires
        c < 4,
        vertical ==> fixed < w && 0 < h && h - 1 + r <= usize::MAX,
        !vertical ==> fixed < h && 0 < w && w - 1 + r <= usize::MAX,
        raster_len(w as int, h as int) <= src@.len(),
        raster_len(w as int, h as int) <= old(dst)@.len(),
    ensures
        final(dst)@.len() == old(dst)@.len(),
        forall|k: int|
            0 <= k < (if vertical { h } else { w }) ==> #[trigger] final(dst)@[line_pos(
                w as int,
                vertical,
                fixed as int,
                k,
                c as int,
            )] == range_max(
                line_fn(src@, w as int, vertical, fixed as int, c as int),
                window_lo(k, r as int),
                window_hi(k, r as int, (if vertical { h } else { w }) as int),
            ),
        forall|i: int|
            0 <= i < old(dst)@.len() && (forall|k: int|
                0 <= k < (if vertical { h } else { w }) ==> i != #[trigger] line_pos(
                    w as int,
                    vertical,
                    fixed as int,
                    k,
                    c as int,
                )) ==> final(dst)@[i] == old(dst)@[i],
{
    let n: usize = if vertical {
        h
    } else {
        w
    };
    let ghost f = line_fn(src@, w as int, vertical, fixed as int, c as int);
    let ghost d0 = old(dst)@;
    let src_len = src.len();
    let mut k: usize = 0;
    while k < n
        invariant
            k <= n,
            0 < n,
            n - 1 + r <= usize::MAX,
            n == (if vertical { h } else { w }),
            f == line_fn(src@, w as int, vertical, fixed as int, c as int),
            c < 4,
            vertical ==> fixed < w,
            !vertical ==> fixed < h,
            raster_len(w as int, h as int) <= src@.len(),
            raster_len(w as int, h as int) <= dst@.len(),
            src_len == src@.len(),
            dst@.len() == d0.len(),
            forall|j: int|
                0 <= j < k ==> #[trigger] dst@[line_pos(w as int, vertical, fixed as int, j, c as int)]
                    == range_max(f, window_lo(j, r as int), window_hi(j, r as int, n as int)),
            forall|i: int|
                0 <= i < d0.len() && (forall|j: int|
                    0 <= j < n ==> i != #[trigger] line_pos(
                        w as int,
                        vertical,
                        fixed as int,
                        j,
                        c as int,
                    )) ==> dst@[i] == d0[i],
        decreases n - k,
    {
        let start = if k >= r {
            k - r
        } else {
            0
        };
        let end = if k + r < n - 1 {
            k + r
        } else {
            n - 1
        };
        let mut best: u8 = 0;
        let mut kk: usize = start;
        while kk <= end
            invariant
                start <= kk <= end + 1,
                end < n,
                n == (if vertical { h } else { w }),
                f == line_fn(src@, w as int, vertical, fixed as int, c as int),
                c < 4,
                vertical ==> fixed < w,
                !vertical ==> fixed < h,
                raster_len(w as int, h as int) <= src@.len(),
                src_len == src@.len(),
                best == range_max(f, start as int, kk as int),
            decreases end + 1 - kk,
        {
            let i = line_index(w, h, vertical, fixed, kk, c);
            if src[i] > best {
                best = src[i];
            }
            kk = kk + 1;
        }
        let here = line_index(w, h, vertical, fixed, k, c);
        let ghost prev_dst = dst@;
        dst[here] = best;
        proof {
            assert forall|j: int| 0 <= j < k + 1 implies #[trigger] dst@[line_pos(
                w as int,
                vertical,
                fixed as int,
                j,
                c as int,
            )] == range_max(f, window_lo(j, r as int), window_hi(j, r as int, n as int)) by {
                if j < k {
                    if vertical {
                        lemma_pix_in_raster(w as int, h as int, fixed as int, j, c as int);
                        if pix(w as int, fixed as int, j, c as int) == here {
                            lemma_pix_injective(w as int, fixed as int, j, c as int, fixed as int, k as int, c as int);
                        }
                    } else {
                        lemma_pix_in_raster(w as int, h as int, j, fixed as int, c as int);
                        if pix(w as int, j, fixed as int, c as int) == here {
                            lemma_pix_injective(w as int, j, fixed as int, c as int, k as int, fixed as int, c as int);
                        }
                    }
                    assert(prev_dst[line_pos(w as int, vertical, fixed as int, j, c as int)]
                        == range_max(f, window_lo(j, r as int), window_hi(j, r as int, n as int)));
                }
            }
        }
        k = k + 1;
    }
}

/// Dilates an RGBA raster: each colour channel becomes the largest value of
/// that channel within `radius` pixels horizontally and vertically (a square
/// window cut at the borders); alpha is copied.
pub fn fast_dilate_rgba(src: &[u8], dst: &mut [u8], w: usize, h: usize, radius: usize)
    requires
        raster_len(w as int, h as int) <= src@.len(),
        raster_len(w as int, h as int) <= old(dst)@.len(),
        w == 0 || w - 1 + radius <= usize::MAX,
        h == 0 || h - 1 + radius <= usize::MAX,
    ensures
        final(dst)@.len() == old(dst)@.len(),
        forall|x: int, y: int, c: int|
            0 <= x < w && 0 <= y < h && 0 <= c < 3 ==> #[trigger] final(dst)@[pix(
                w as int,
                x,
                y,
                c,
            )] == dilate_value(src@, w as int, h as int, radius as int, x, y, c),
        forall|x: int, y: int|
            0 <= x < w && 0 <= y < h ==> #[trigger] final(dst)@[pix(w as int, x, y, 3)] == src@[pix(
                w as int,
                x,
                y,
                3,
            )],
        forall|i: int|
            raster_len(w as int, h as int) <= i < old(dst)@.len() ==> final(dst)@[i] == old(
                dst,
            )@[i],
{
    let ghost d0 = old(dst)@;
    let ghost r = radius as int;
    let mut temp: Vec<u8> = vec![0u8; src.len()];
    let mut y: usize = 0;
    while y < h
        invariant
            y <= h,
            temp@.len() == src@.len(),
            raster_len(w as int, h as int) <= src@.len(),
            w == 0 || w - 1 + radius <= usize::MAX,
            r == radius as int,
            forall|x: int, yy: int, c: int|
                0 <= x < w && 0 <= yy < y && 0 <= c < 3 ==> #[trigger] temp@[pix(w as int, x, yy, c)]
                    == hdilate(src@, w as int, r, x, yy, c),
        decreases h - y,
    {
        if w > 0 {
            let mut c: usize = 0;
            while c < 3
                invariant
                    y < h,
                    c <= 3,
                    0 < w,
                    temp@.len() == src@.len(),
                    raster_len(w as int, h as int) <= src@.len(),
                    w - 1 + radius <= usize::MAX,
                    r == radius as int,
                    forall|x: int, yy: int, cc: int|
                        0 <= x < w && 0 <= cc < 3 && (0 <= yy < y || (yy == y && cc < c))
                            ==> #[trigger] temp@[pix(w as int, x, yy, cc)] == hdilate(
                            src@,
                            w as int,
                            r,
                            x,
                            yy,
                            cc,
                        ),
                decreases 3 - c,
            {
                let ghost before = temp@;
                dilate_line(src, temp.as_mut_slice(), w, h, false, y, c, radius);
                proof {
                    assert forall|x: int, yy: int, cc: int|
                        0 <= x < w && 0 <= cc < 3 && (0 <= yy < y || (yy == y && cc < c + 1))
                            implies #[trigger] temp@[pix(w as int, x, yy, cc)] == hdilate(
                            src@,
                            w as int,
                            r,
                            x,
                            yy,
                            cc,
                        ) by {
                        if yy == y && cc == c {
                            assert(temp@[line_pos(w as int, false, y as int, x, c as int)]
                                == range_max(
                                line_fn(src@, w as int, false, y as int, c as int),
                                window_lo(x, r),
                                window_hi(x, r, w as int),
                            ));
                        } else {
                            lemma_pix_in_raster(w as int, h as int, x, yy, cc);
                            assert forall|k: int| 0 <= k < w implies pix(w as int, x, yy, cc)
                                != #[trigger] line_pos(w as int, false, y as int, k, c as int) by {
                                if pix(w as int, x, yy, cc) == pix(w as int, k, y as int, c as int) {
                                    lemma_pix_injective(w as int, x, yy, cc, k, y as int, c as int);
                                }
                            }
                            assert(temp@[pix(w as int, x, yy, cc)] == before[pix(w as int, x, yy, cc)]);
                        }
                    }
                }
                c = c + 1;
            }
        }
        y = y + 1;
    }
    let mut x: usize = 0;
    while x < w
        invariant
            x <= w,
            temp@.len() == src@.len(),
            raster_len(w as int, h as int) <= src@.len(),
            raster_len(w as int, h as int) <= dst@.len(),
            dst@.len() == d0.len(),
            h == 0 || h - 1 + radius <= usize::MAX,
            r == radius as int,
            forall|xx: int, yy: int, c: int|
                0 <= xx < w && 0 <= yy < h && 0 <= c < 3 ==> #[trigger] temp@[pix(
                    w as int,
                    xx,
                    yy,
                    c,
                )] == hdilate(src@, w as int, r, xx, yy, c),
            forall|xx: int, yy: int, c: int|
                0 <= xx < x && 0 <= yy < h && 0 <= c < 3 ==> #[trigger] dst@[pix(w as int, xx, yy, c)]
                    == dilate_value(src@, w as int, h as int, r, xx, yy, c),
            forall|i: int| raster_len(w as int, h as int) <= i < d0.len() ==> dst@[i] == d0[i],
        decreases w - x,
    {
        if h > 0 {
            let mut c: usize = 0;
            while c < 3
                invariant
                    x < w,
                    0 < h,
                    c <= 3,
                    temp@.len() == src@.len(),
                    raster_len(w as int, h as int) <= src@.len(),
                    raster_len(w as int, h as int) <= dst@.len(),
                    dst@.len() == d0.len(),
                    h - 1 + radius <= usize::MAX,
                    r == radius as int,
                    forall|xx: int, yy: int, cc: int|
                        0 <= xx < w && 0 <= yy < h && 0 <= cc < 3 ==> #[trigger] temp@[pix(
                            w as int,
                            xx,
                            yy,
                            cc,
                        )] == hdilate(src@, w as int, r, xx, yy, cc),
                    forall|xx: int, yy: int, cc: int|
                        0 <= yy < h && 0 <= cc < 3 && (0 <= xx < x || (xx == x && cc < c))
                            ==> #[trigger] dst@[pix(w as int, xx, yy, cc)] == dilate_value(
                            src@,
                            w as int,
                            h as int,
                            r,
                            xx,
                            yy,
                            cc,
                        ),
                    forall|i: int|
                        raster_len(w as int, h as int) <= i < d0.len() ==> dst@[i] == d0[i],
                decreases 3 - c,
            {
                let ghost before = dst@;
                dilate_line(temp.as_slice(), dst, w, h, true, x, c, radius);
                proof {
                    let g = line_fn(temp@, w as int, true, x as int, c as int);
                    let hd = |j: int| hdilate(src@, w as int, r, x as int, j, c as int);
                    assert forall|xx: int, yy: int, cc: int|
                        0 <= yy < h && 0 <= cc < 3 && (0 <= xx < x || (xx == x && cc < c + 1))
                            implies #[trigger] dst@[pix(w as int, xx, yy, cc)] == dilate_value(
                            src@,
                            w as int,
                            h as int,
                            r,
                            xx,
                            yy,
                            cc,
                        ) by {
                        if xx == x && cc == c {
                            assert forall|j: int|
                                window_lo(yy, r) <= j < window_hi(yy, r, h as int) implies #[trigger] g(
                                j,
                            ) == hd(j) by {
                                assert(temp@[pix(w as int, x as int, j, c as int)] == hdilate(
                                    src@,
                                    w as int,
                                    r,
                                    x as int,
                                    j,
                                    c as int,
                                ));
                            }
                            lemma_range_max_congruent(
                                g,
                                hd,
                                window_lo(yy, r),
                                window_hi(yy, r, h as int),
                            );
                            assert(dst@[line_pos(w as int, true, x as int, yy, c as int)]
                                == range_max(g, window_lo(yy, r), window_hi(yy, r, h as int)));
                        } else {
                            lemma_pix_in_raster(w as int, h as int, xx, yy, cc);
                            assert forall|k: int| 0 <= k < h implies pix(w as int, xx, yy, cc)
                                != #[trigger] line_pos(w as int, true, x as int, k, c as int) by {
                                if pix(w as int, xx, yy, cc) == pix(w as int, x as int, k, c as int) {
                                    lemma_pix_injective(w as int, xx, yy, cc, x as int, k, c as int);
                                }
                            }
                            assert(dst@[pix(w as int, xx, yy, cc)] == before[pix(
                                w as int,
                                xx,
                                yy,
                                cc,
                            )]);
                        }
                    }
                    assert forall|i: int| raster_len(w as int, h as int) <= i < d0.len() implies dst@[i]
                        == d0[i] by {
                        assert forall|k: int| 0 <= k < h implies i != #[trigger] line_pos(
                            w as int,
                            true,
                            x as int,
                            k,
                            c as int,
                        ) by {
                            lemma_pix_in_raster(w as int, h as int, x as int, k, c as int);
                        }
                        assert(before[i] == d0[i]);
                    }
                }
                c = c + 1;
            }
        }
        x = x + 1;
    }
    copy_alpha(src, dst, w, h);
}

/// Every pixel lies in its own window, so dilation never darkens a channel.
pub proof fn lemma_dilation_extensive(s: Seq<u8>, w: int, h: int, r: int, x: int, y: int, c: int)
    requires
        0 <= r,
        0 <= x < w,
        0 <= y < h,
    ensures
        s[pix(w, x, y, c)] <= dilate_value(s, w, h, r, x, y, c),
{
    let f = line_fn(s, w, false, y, c);
    let g = |j: int| hdilate(s, w, r, x, j, c);
    lemma_range_max_is_max(f, window_lo(x, r), window_hi(x, r, w));
    lemma_range_max_is_max(g, window_lo(y, r), window_hi(y, r, h));
    assert(f(x) <= hdilate(s, w, r, x, y, c));
    assert(g(y) <= dilate_value(s, w, h, r, x, y, c));
}

/// Dilation is monotone: a raster that is nowhere darker than another stays
/// nowhere darker after both are dilated.
pub proof fn lemma_dilation_monotone(
    s: Seq<u8>,
    t: Seq<u8>,
    w: int,
    h: int,
    r: int,
    x: int,
    y: int,
    c: int,
)
    requires
        forall|xx: int, yy: int| 0 <= xx < w && 0 <= yy < h ==> #[trigger] s[pix(w, xx, yy, c)] <= t[pix(w, xx, yy, c)],
    ensures
        dilate_value(s, w, h, r, x, y, c) <= dilate_value(t, w, h, r, x, y, c),
{
    assert forall|j: int| window_lo(y, r) <= j < window_hi(y, r, h) implies #[trigger] hdilate(
        s,
        w,
        r,
        x,
        j,
        c,
    ) <= hdilate(t, w, r, x, j, c) by {
        let fs = line_fn(s, w, false, j, c);
        let ft = line_fn(t, w, false, j, c);
        assert forall|i: int| window_lo(x, r) <= i < window_hi(x, r, w) implies #[trigger] fs(i) <= ft(
            i,
        ) by {
            assert(s[pix(w, i, j, c)] <= t[pix(w, i, j, c)]);
        }
        lemma_range_max_monotone(fs, ft, window_lo(x, r), window_hi(x, r, w));
    }
    lemma_range_max_monotone(
        |j: int| hdilate(s, w, r, x, j, c),
        |j: int| hdilate(t, w, r, x, j, c),
        window_lo(y, r),
        window_hi(y, r, h),
    );
}

} // verus!
