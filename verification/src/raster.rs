//! Addressing of interleaved RGBA rasters: pixel `(x, y)` of an image `w`
//! pixels wide keeps channel `c` at byte `(y * w + x) * 4 + c`.
use vstd::prelude::*;

verus! {

/// Byte offset of channel `c` of pixel `(x, y)` in an RGBA raster `w` pixels wide.
pub open spec fn pix(w: int, x: int, y: int, c: int) -> int {
    (y * w + x) * 4 + c
}

/// Bytes that a `w` by `h` RGBA raster occupies.
pub open spec fn raster_len(w: int, h: int) -> int {
    w * h * 4
}

pub proof fn lemma_pix_in_raster(w: int, h: int, x: int, y: int, c: int)
    requires
        0 <= x < w,
        0 <= y < h,
        0 <= c < 4,
    ensures
        0 <= pix(w, x, y, c) < raster_len(w, h),
        0 <= y * w + x < w * h,
        pix(w, x, y, c) + 4 - c <= raster_len(w, h),
{
    assert(0 <= y * w) by (nonlinear_arith)
        requires
            0 <= y,
            0 <= w,
    ;
    assert(y * w + x < w * h) by (nonlinear_arith)
        requires
            0 <= x < w,
            0 <= y < h,
    ;
}

/// Distinct pixels and channels occupy distinct bytes.
pub proof fn lemma_pix_injective(w: int, x1: int, y1: int, c1: int, x2: int, y2: int, c2: int)
    requires
        0 <= x1 < w,
        0 <= x2 < w,
        0 <= y1,
        0 <= y2,
        0 <= c1 < 4,
        0 <= c2 < 4,
        pix(w, x1, y1, c1) == pix(w, x2, y2, c2),
    ensures
        x1 == x2,
        y1 == y2,
        c1 == c2,
{
    let p1 = y1 * w + x1;
    let p2 = y2 * w + x2;
    assert(p1 == p2 && c1 == c2) by (nonlinear_arith)
        requires
            p1 * 4 + c1 == p2 * 4 + c2,
            0 <= c1 < 4,
            0 <= c2 < 4,
    ;
    assert(y1 == y2) by (nonlinear_arith)
        requires
            y1 * w + x1 == y2 * w + x2,
            0 <= x1 < w,
            0 <= x2 < w,
            0 <= y1,
            0 <= y2,
    ;
}

/// The width of a non-empty raster is at most its byte count.
pub proof fn lemma_raster_dims(w: int, h: int)
    requires
        0 <= w,
        0 <= h,
    ensures
        0 <= raster_len(w, h),
        h > 0 ==> 4 * w <= raster_len(w, h),
        w > 0 ==> 4 * h <= raster_len(w, h),
{
    assert(0 <= w * h) by (nonlinear_arith)
        requires
            0 <= w,
            0 <= h,
    ;
    assert(h > 0 ==> w <= w * h) by (nonlinear_arith)
        requires
            0 <= w,
            0 <= h,
    ;
    assert(w > 0 ==> h <= w * h) by (nonlinear_arith)
        requires
            0 <= w,
            0 <= h,
    ;
}

/// Byte offset of channel `c` of pixel `(x, y)`, computed without overflow.
pub fn pixel_offset(w: usize, h: usize, x: usize, y: usize, c: usize) -> (i: usize)
    requires
        x < w,
        y < h,
        c < 4,
        raster_len(w as int, h as int) <= usize::MAX,
    ensures
        i == pix(w as int, x as int, y as int, c as int),
        i < raster_len(w as int, h as int),
{
    proof {
        lemma_pix_in_raster(w as int, h as int, x as int, y as int, c as int);
    }
    (y * w + x) * 4 + c
}

/// Byte of channel `c` at step `k` of a line: along row `fixed` when the line
/// is horizontal, along column `fixed` when it is vertical.
pub open spec fn line_pos(w: int, vertical: bool, fixed: int, k: int, c: int) -> int {
    if vertical {
        pix(w, fixed, k, c)
    } else {
        pix(w, k, fixed, c)
    }
}

/// The values of channel `c` along a line, as integers.
pub open spec fn line_fn(s: Seq<u8>, w: int, vertical: bool, fixed: int, c: int) -> spec_fn(
    int,
) -> int {
    |k: int| s[line_pos(w, vertical, fixed, k, c)] as int
}

/// Byte offset of channel `c` at step `k` of a line.
pub fn line_index(w: usize, h: usize, vertical: bool, fixed: usize, k: usize, c: usize) -> (i: usize)
    requires
        c < 4,
        vertical ==> fixed < w && k < h,
        !vertical ==> fixed < h && k < w,
        raster_len(w as int, h as int) <= usize::MAX,
    ensures
        i == line_pos(w as int, vertical, fixed as int, k as int, c as int),
        i < raster_len(w as int, h as int),
{
    if vertical {
        pixel_offset(w, h, fixed, k, c)
    } else {
        pixel_offset(w, h, k, fixed, c)
    }
}

/// Copies the alpha byte of every pixel of the raster from `src` to `dst`.
pub fn copy_alpha(src: &[u8], dst: &mut [u8], w: usize, h: usize)
    requires
        raster_len(w as int, h as int) <= src@.len(),
        raster_len(w as int, h as int) <= old(dst)@.len(),
    ensures
        final(dst)@.len() == old(dst)@.len(),
        forall|x: int, y: int|
            0 <= x < w && 0 <= y < h ==> #[trigger] final(dst)@[pix(w as int, x, y, 3)] == src@[pix(
                w as int,
                x,
                y,
                3,
            )],
        forall|x: int, y: int, c: int|
            0 <= x < w && 0 <= y < h && 0 <= c < 3 ==> #[trigger] final(dst)@[pix(w as int, x, y, c)]
                == old(dst)@[pix(w as int, x, y, c)],
        forall|i: int|
            raster_len(w as int, h as int) <= i < old(dst)@.len() ==> final(dst)@[i] == old(
                dst,
            )@[i],
{
    let ghost d0 = old(dst)@;
    let mut y: usize = 0;
    while y < h
        invariant
            y <= h,
            raster_len(w as int, h as int) <= src@.len(),
            raster_len(w as int, h as int) <= dst@.len(),
            dst@.len() == d0.len(),
            forall|xx: int, yy: int|
                0 <= xx < w && 0 <= yy < y ==> #[trigger] dst@[pix(w as int, xx, yy, 3)] == src@[pix(
                    w as int,
                    xx,
                    yy,
                    3,
                )],
            forall|xx: int, yy: int, c: int|
                0 <= xx < w && 0 <= yy < h && 0 <= c < 3 ==> #[trigger] dst@[pix(w as int, xx, yy, c)]
                    == d0[pix(w as int, xx, yy, c)],
            forall|xx: int, yy: int|
                0 <= xx < w && y <= yy < h ==> #[trigger] dst@[pix(w as int, xx, yy, 3)] == d0[pix(
                    w as int,
                    xx,
                    yy,
                    3,
                )],
            forall|i: int| raster_len(w as int, h as int) <= i < d0.len() ==> dst@[i] == d0[i],
        decreases h - y,
    {
        let mut x: usize = 0;
        while x < w
            invariant
                y < h,
                x <= w,
                raster_len(w as int, h as int) <= src@.len(),
                raster_len(w as int, h as int) <= dst@.len(),
                dst@.len() == d0.len(),
                forall|xx: int, yy: int|
                    0 <= xx < w && 0 <= yy < h && (yy < y || (yy == y && xx < x))
                        ==> #[trigger] dst@[pix(w as int, xx, yy, 3)] == src@[pix(w as int, xx, yy, 3)],
                forall|xx: int, yy: int, c: int|
                    0 <= xx < w && 0 <= yy < h && 0 <= c < 3 ==> #[trigger] dst@[pix(
                        w as int,
                        xx,
                        yy,
                        c,
                    )] == d0[pix(w as int, xx, yy, c)],
                forall|xx: int, yy: int|
                    0 <= xx < w && 0 <= yy < h && (yy > y || (yy == y && xx >= x))
                        ==> #[trigger] dst@[pix(w as int, xx, yy, 3)] == d0[pix(w as int, xx, yy, 3)],
                forall|i: int| raster_len(w as int, h as int) <= i < d0.len() ==> dst@[i] == d0[i],
            decreases w - x,
        {
            let i = pixel_offset(w, h, x, y, 3);
            let ghost prev = dst@;
            dst[i] = src[i];
            proof {
                assert forall|xx: int, yy: int, c: int|
                    0 <= xx < w && 0 <= yy < h && 0 <= c < 4 implies (#[trigger] dst@[pix(
                        w as int,
                        xx,
                        yy,
                        c,
                    )] == if xx == x && yy == y && c == 3 {
                        src@[i as int]
                    } else {
                        prev[pix(w as int, xx, yy, c)]
                    }) by {
                    lemma_pix_in_raster(w as int, h as int, xx, yy, c);
                    if pix(w as int, xx, yy, c) == i {
                        lemma_pix_injective(w as int, xx, yy, c, x as int, y as int, 3);
                    }
                }
                assert forall|j: int| raster_len(w as int, h as int) <= j < d0.len() implies dst@[j]
                    == d0[j] by {
                    assert(prev[j] == d0[j]);
                }
            }
            x = x + 1;
        }
        y = y + 1;
    }
}


/// Stores the four channels `v` of pixel `(x, y)`; every other byte stays.
pub fn write_pixel(dst: &mut [u8], w: usize, h: usize, x: usize, y: usize, v: [u8; 4])
    requires
        x < w,
        y < h,
        raster_len(w as int, h as int) <= old(dst)@.len(),
    ensures
        final(dst)@.len() == old(dst)@.len(),
        forall|c: int| 0 <= c < 4 ==> #[trigger] final(dst)@[pix(w as int, x as int, y as int, c)] == v@[c],
        forall|i: int|
            0 <= i < old(dst)@.len() && (i < pix(w as int, x as int, y as int, 0) || pix(
                w as int,
                x as int,
                y as int,
                3,
            ) < i) ==> final(dst)@[i] == old(dst)@[i],
{
    let i = pixel_offset(w, h, x, y, 0);
    dst[i] = v[0];
    dst[i + 1] = v[1];
    dst[i + 2] = v[2];
    dst[i + 3] = v[3];
}

/// Bytes of distinct pixels lie outside each other's four-byte block.
pub proof fn lemma_pixel_blocks_apart(w: int, x1: int, y1: int, x2: int, y2: int, c: int)
    requires
        0 <= x1 < w,
        0 <= x2 < w,
        0 <= y1,
        0 <= y2,
        0 <= c < 4,
        x1 != x2 || y1 != y2,
    ensures
        pix(w, x1, y1, c) < pix(w, x2, y2, 0) || pix(w, x2, y2, 3) < pix(w, x1, y1, c),
{
    let p1 = y1 * w + x1;
    let p2 = y2 * w + x2;
    if p1 == p2 {
        lemma_pix_injective(w, x1, y1, 0, x2, y2, 0);
    }
}

} // verus!
