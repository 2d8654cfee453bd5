//! RGBA images and the perspective warp that extracts a document from one.
//!
//! The warp maps the unit square onto a quadrilateral with the projective
//! transform that sends its corners `(0, 0), (1, 0), (1, 1), (0, 1)` to the
//! quadrilateral's top-left `b`, top-right `c`, bottom-right `d` and
//! bottom-left `a` corners. Output pixel `(i, j)` of a `w` by `h` result is
//! the source pixel under the image of its centre
//! `((2i + 1) / 2w, (2j + 1) / 2h)`, clamped into the source. The transform is
//! evaluated exactly after clearing every denominator, in 128-bit integers for
//! its coefficients and 256-bit integers (`wide`) for each sample.
use vstd::prelude::*;

use crate::geometry::{Point, Quad};
use crate::raster::{lemma_pix_in_raster, lemma_pixel_blocks_apart, pix, pixel_offset, raster_len, write_pixel};
use crate::wide::{is_negative, is_zero, mul_i128_u64, mul_wide_u64, wide_add, wide_le, wide_neg, Wide};

verus! {

/// An RGBA image: `width * height` pixels, four bytes each, row by row.
pub struct RGBAImage {
    pub data: Vec<u8>,
    pub width: usize,
    pub height: usize,
}

impl RGBAImage {
    /// The buffer holds exactly the image's pixels.
    pub open spec fn wf(&self) -> bool {
        self.data@.len() == raster_len(self.width as int, self.height as int)
    }
}

/// Denominator of the square-to-quad transform.
pub open spec fn warp_den(q: Quad) -> int {
    (q.c.x - q.d.x) * (q.a.y - q.d.y) - (q.a.x - q.d.x) * (q.c.y - q.d.y)
}

/// Weight of `u` in the projective denominator, scaled by `warp_den`.
pub open spec fn warp_g(q: Quad) -> int {
    let sx = q.b.x - q.c.x + q.d.x - q.a.x;
    let sy = q.b.y - q.c.y + q.d.y - q.a.y;
    sx * (q.a.y - q.d.y) - sy * (q.a.x - q.d.x)
}

/// Weight of `v` in the projective denominator, scaled by `warp_den`.
pub open spec fn warp_h(q: Quad) -> int {
    let sx = q.b.x - q.c.x + q.d.x - q.a.x;
    let sy = q.b.y - q.c.y + q.d.y - q.a.y;
    (q.c.x - q.d.x) * sy - (q.c.y - q.d.y) * sx
}

/// Numerator of one coordinate of the image of `(u / s, v / s)`, where `p0`,
/// `p1`, `p3` are that coordinate of corners `b`, `c`, `a`.
pub open spec fn warp_num(q: Quad, p0: int, p1: int, p3: int, u: int, v: int, s: int) -> int {
    ((p1 - p0) * warp_den(q) + warp_g(q) * p1) * u + ((p3 - p0) * warp_den(q) + warp_h(q) * p3) * v
        + p0 * warp_den(q) * s
}

/// Common denominator of both coordinates of the image of `(u / s, v / s)`.
pub open spec fn warp_w(q: Quad, u: int, v: int, s: int) -> int {
    warp_g(q) * u + warp_h(q) * v + warp_den(q) * s
}

/// Scaled horizontal position of the centre of output column `i`.
pub open spec fn sample_u(h: int, i: int) -> int {
    (2 * i + 1) * (2 * h)
}

/// Scaled vertical position of the centre of output row `j`.
pub open spec fn sample_v(w: int, j: int) -> int {
    (2 * j + 1) * (2 * w)
}

/// The common scale of `sample_u` and `sample_v`.
pub open spec fn sample_s(w: int, h: int) -> int {
    4 * w * h
}

/// The source column or row `floor(num / den)`, clamped into `0..n`; `den > 0`.
pub open spec fn source_index(num: int, den: int, n: int) -> int {
    if num < 0 {
        0
    } else if num / den >= n {
        n - 1
    } else {
        num / den
    }
}

/// The source pixel that output pixel `(i, j)` of a `w` by `h` warp of `q`
/// reads from an `sw` by `sh` source, or `None` where the transform has no
/// finite image (its denominator vanishes).
pub open spec fn warp_source(q: Quad, sw: int, sh: int, w: int, h: int, i: int, j: int) -> Option<
    (int, int),
> {
    let u = sample_u(h, i);
    let v = sample_v(w, j);
    let s = sample_s(w, h);
    let xn = warp_num(q, q.b.x as int, q.c.x as int, q.a.x as int, u, v, s);
    let yn = warp_num(q, q.b.y as int, q.c.y as int, q.a.y as int, u, v, s);
    let wn = warp_w(q, u, v, s);
    if wn == 0 {
        None
    } else if wn > 0 {
        Some((source_index(xn, wn, sw), source_index(yn, wn, sh)))
    } else {
        Some((source_index(-xn, -wn, sw), source_index(-yn, -wn, sh)))
    }
}

/// Byte `c` of output pixel `(i, j)`: that byte of the source pixel it reads,
/// or zero (transparent black) where there is none.
pub open spec fn warped_byte(
    s: Seq<u8>,
    sw: int,
    sh: int,
    q: Quad,
    w: int,
    h: int,
    i: int,
    j: int,
    c: int,
) -> u8 {
    match warp_source(q, sw, sh, w, h, i, j) {
        Some((x, y)) => if sw > 0 && sh > 0 {
            s[pix(sw, x, y, c)]
        } else {
            0
        },
        None => 0,
    }
}

proof fn lemma_mul_bound(a: int, b: int, ba: int, bb: int)
    requires
        -ba <= a <= ba,
        -bb <= b <= bb,
    ensures
        -(ba * bb) <= a * b <= ba * bb,
{
    assert(-(ba * bb) <= a * b <= ba * bb) by (nonlinear_arith)
        requires
            -ba <= a <= ba,
            -bb <= b <= bb,
    ;
}

/// The transform's coefficients for one image, in 128-bit integers.
struct Coeffs {
    den: i128,
    g: i128,
    h: i128,
    ax: i128,
    bx: i128,
    cx: i128,
    ay: i128,
    by: i128,
    cy: i128,
}

impl Coeffs {
    spec fn matches(&self, q: Quad) -> bool {
        &&& self.den == warp_den(q)
        &&& self.g == warp_g(q)
        &&& self.h == warp_h(q)
        &&& self.ax == (q.c.x - q.b.x) * warp_den(q) + warp_g(q) * q.c.x
        &&& self.bx == (q.a.x - q.b.x) * warp_den(q) + warp_h(q) * q.a.x
        &&& self.cx == q.b.x * warp_den(q)
        &&& self.ay == (q.c.y - q.b.y) * warp_den(q) + warp_g(q) * q.c.y
        &&& self.by == (q.a.y - q.b.y) * warp_den(q) + warp_h(q) * q.a.y
        &&& self.cy == q.b.y * warp_den(q)
    }

    spec fn bounded(&self) -> bool {
        &&& -0x2_0000_0000_0000_0000 <= self.den <= 0x2_0000_0000_0000_0000
        &&& -0x4_0000_0000_0000_0000 <= self.g <= 0x4_0000_0000_0000_0000
        &&& -0x4_0000_0000_0000_0000 <= self.h <= 0x4_0000_0000_0000_0000
        &&& -0x4_0000_0000_0000_0000_0000_0000 <= self.ax <= 0x4_0000_0000_0000_0000_0000_0000
        &&& -0x4_0000_0000_0000_0000_0000_0000 <= self.bx <= 0x4_0000_0000_0000_0000_0000_0000
        &&& -0x4_0000_0000_0000_0000_0000_0000 <= self.cx <= 0x4_0000_0000_0000_0000_0000_0000
        &&& -0x4_0000_0000_0000_0000_0000_0000 <= self.ay <= 0x4_0000_0000_0000_0000_0000_0000
        &&& -0x4_0000_0000_0000_0000_0000_0000 <= self.by <= 0x4_0000_0000_0000_0000_0000_0000
        &&& -0x4_0000_0000_0000_0000_0000_0000 <= self.cy <= 0x4_0000_0000_0000_0000_0000_0000
    }
}

/// `p1 - p0` scaled by the denominator plus `p1` scaled by `g`.
fn edge_coeff(p0: i32, p1: i32, den: i128, g: i128) -> (r: i128)
    requires
        -0x2_0000_0000_0000_0000 <= den <= 0x2_0000_0000_0000_0000,
        -0x4_0000_0000_0000_0000 <= g <= 0x4_0000_0000_0000_0000,
    ensures
        r == (p1 - p0) * den + g * p1,
        -0x4_0000_0000_0000_0000_0000_0000 <= r <= 0x4_0000_0000_0000_0000_0000_0000,
{
    let d = p1 as i128 - p0 as i128;
    proof {
        lemma_mul_bound(d as int, den as int, 0x1_0000_0000, 0x2_0000_0000_0000_0000);
        lemma_mul_bound(g as int, p1 as int, 0x4_0000_0000_0000_0000, 0x8000_0000);
    }
    d * den + g * p1 as i128
}

fn coeffs(q: Quad) -> (k: Coeffs)
    ensures
        k.matches(q),
        k.bounded(),
{
    let dx1 = q.c.x as i128 - q.d.x as i128;
    let dx2 = q.a.x as i128 - q.d.x as i128;
    let dy1 = q.c.y as i128 - q.d.y as i128;
    let dy2 = q.a.y as i128 - q.d.y as i128;
    let sx = q.b.x as i128 - q.c.x as i128 + q.d.x as i128 - q.a.x as i128;
    let sy = q.b.y as i128 - q.c.y as i128 + q.d.y as i128 - q.a.y as i128;
    proof {
        lemma_mul_bound(dx1 as int, dy2 as int, 0x1_0000_0000, 0x1_0000_0000);
        lemma_mul_bound(dx2 as int, dy1 as int, 0x1_0000_0000, 0x1_0000_0000);
        lemma_mul_bound(sx as int, dy2 as int, 0x2_0000_0000, 0x1_0000_0000);
        lemma_mul_bound(sy as int, dx2 as int, 0x2_0000_0000, 0x1_0000_0000);
        lemma_mul_bound(dx1 as int, sy as int, 0x1_0000_0000, 0x2_0000_0000);
        lemma_mul_bound(dy1 as int, sx as int, 0x1_0000_0000, 0x2_0000_0000);
    }
    let den = dx1 * dy2 - dx2 * dy1;
    let g = sx * dy2 - sy * dx2;
    let h = dx1 * sy - dy1 * sx;
    proof {
        lemma_mul_bound(q.b.x as int, den as int, 0x8000_0000, 0x2_0000_0000_0000_0000);
        lemma_mul_bound(q.b.y as int, den as int, 0x8000_0000, 0x2_0000_0000_0000_0000);
    }
    Coeffs {
        den,
        g,
        h,
        ax: edge_coeff(q.b.x, q.c.x, den, g),
        bx: edge_coeff(q.b.x, q.a.x, den, h),
        cx: q.b.x as i128 * den,
        ay: edge_coeff(q.b.y, q.c.y, den, g),
        by: edge_coeff(q.b.y, q.a.y, den, h),
        cy: q.b.y as i128 * den,
    }
}

/// `a * u + b * v + c * s`, exactly, for coefficients of at most 98 bits.
fn combine(a: i128, b: i128, c: i128, u: u64, v: u64, s: u64) -> (r: Wide)
    requires
        -0x4_0000_0000_0000_0000_0000_0000 <= a <= 0x4_0000_0000_0000_0000_0000_0000,
        -0x4_0000_0000_0000_0000_0000_0000 <= b <= 0x4_0000_0000_0000_0000_0000_0000,
        -0x4_0000_0000_0000_0000_0000_0000 <= c <= 0x4_0000_0000_0000_0000_0000_0000,
    ensures
        r.value() == a * u + b * v + c * s,
        r.small(),
{
    let pu = mul_i128_u64(a, u);
    let pv = mul_i128_u64(b, v);
    let ps = mul_i128_u64(c, s);
    wide_add(wide_add(pu, pv), ps)
}

proof fn lemma_quotient_is_index(num: int, den: int, n: int, q: int)
    requires
        0 <= num,
        0 < den,
        0 <= q < n,
        q * den <= num,
        q + 1 == n || num < (q + 1) * den,
    ensures
        source_index(num, den, n) == q,
{
    let fq = num / den;
    vstd::arithmetic::div_mod::lemma_fundamental_div_mod(num, den);
    assert(num == den * fq + num % den && 0 <= num % den < den);
    assert(q <= fq) by (nonlinear_arith)
        requires
            q * den <= num,
            num == den * fq + num % den,
            0 <= num % den < den,
            0 < den,
    ;
    if q + 1 != n {
        assert(fq < q + 1) by (nonlinear_arith)
            requires
                num < (q + 1) * den,
                num == den * fq + num % den,
                0 <= num % den,
                0 < den,
        ;
    }
}

/// `floor(num / den)` clamped into `0..n`, by binary search.
fn clamped_quotient(num: Wide, den: Wide, n: usize) -> (r: usize)
    requires
        0 < den.value(),
        0 <= den.hi <= 0x1_0000,
        0 < n <= 0x4000_0000_0000_0000,
    ensures
        r == source_index(num.value(), den.value(), n as int),
        r < n,
{
    if is_negative(num) {
        return 0;
    }
    let mut lo: usize = 0;
    let mut hi: usize = n - 1;
    while lo < hi
        invariant
            0 <= lo <= hi < n,
            n <= 0x4000_0000_0000_0000,
            0 <= num.value(),
            0 < den.value(),
            0 <= den.hi <= 0x1_0000,
            lo * den.value() <= num.value(),
            hi + 1 == n || num.value() < (hi + 1) * den.value(),
        decreases hi - lo,
    {
        let mid = lo + (hi - lo + 1) / 2;
        let prod = mul_wide_u64(den, mid as u64);
        proof {
            assert(prod.value() == mid * den.value()) by (nonlinear_arith)
                requires
                    prod.value() == den.value() * mid,
            ;
        }
        if wide_le(prod, num) {
            lo = mid;
        } else {
            proof {
                assert(mid * den.value() == (mid - 1 + 1) * den.value());
            }
            hi = mid - 1;
        }
    }
    proof {
        lemma_quotient_is_index(num.value(), den.value(), n as int, lo as int);
    }
    lo
}

/// The quadrilateral of a whole `sw` by `sh` image: corners at `(0, 0)`,
/// `(sw, 0)`, `(sw, sh)` and `(0, sh)`.
pub open spec fn full_frame(sw: int, sh: int) -> Quad {
    Quad {
        a: Point { x: 0, y: sh as i32 },
        b: Point { x: 0, y: 0 },
        c: Point { x: sw as i32, y: 0 },
        d: Point { x: sw as i32, y: sh as i32 },
    }
}

proof fn lemma_centre_quotient(m: int, i: int)
    requires
        m > 0,
        0 <= i,
    ensures
        (m * (4 * i + 2)) / (4 * m) == i,
{
    assert(m * (4 * i + 2) == i * (4 * m) + 2 * m) by (nonlinear_arith);
    vstd::arithmetic::div_mod::lemma_fundamental_div_mod_converse_div(
        m * (4 * i + 2),
        4 * m,
        i,
        2 * m,
    );
}

/// Warping a whole image onto a rectangle of its own size gives the image
/// back: every output pixel reads the source pixel at the same place.
pub proof fn lemma_full_frame_warp_is_identity(s: Seq<u8>, sw: int, sh: int)
    requires
        1 <= sw <= i32::MAX,
        1 <= sh <= i32::MAX,
    ensures
        forall|i: int, j: int, c: int|
            0 <= i < sw && 0 <= j < sh ==> #[trigger] warped_byte(s, sw, sh, full_frame(sw, sh), sw, sh, i, j, c)
                == s[pix(sw, i, j, c)],
{
    let q = full_frame(sw, sh);
    assert(q.c.x == sw && q.d.x == sw && q.a.y == sh && q.d.y == sh);
    let sx = q.b.x - q.c.x + q.d.x - q.a.x;
    let sy = q.b.y - q.c.y + q.d.y - q.a.y;
    assert(sx == 0 && sy == 0);
    assert(warp_g(q) == sx * (q.a.y - q.d.y) - sy * (q.a.x - q.d.x));
    assert(warp_g(q) == 0 && warp_h(q) == 0) by (nonlinear_arith)
        requires
            sx == 0,
            sy == 0,
            warp_g(q) == sx * (q.a.y - q.d.y) - sy * (q.a.x - q.d.x),
            warp_h(q) == (q.c.x - q.d.x) * sy - (q.c.y - q.d.y) * sx,
    ;
    assert(warp_den(q) == -(sw * sh)) by {
        assert((sw - sw) * (sh - sh) - (0 - sw) * (0 - sh) == -(sw * sh)) by (nonlinear_arith);
    }
    let m = (sw * sh) * (sw * sh);
    assert(m > 0) by (nonlinear_arith)
        requires
            sw >= 1,
            sh >= 1,
            m == (sw * sh) * (sw * sh),
    ;
    assert forall|i: int, j: int, c: int| 0 <= i < sw && 0 <= j < sh implies #[trigger] warped_byte(
        s,
        sw,
        sh,
        q,
        sw,
        sh,
        i,
        j,
        c,
    ) == s[pix(sw, i, j, c)] by {
        let u = sample_u(sh, i);
        let v = sample_v(sw, j);
        let st = sample_s(sw, sh);
        let den = -(sw * sh);
        let xn = warp_num(q, 0, sw, 0, u, v, st);
        let yn = warp_num(q, 0, 0, sh, u, v, st);
        let wn = warp_w(q, u, v, st);
        assert(xn == (sw * den) * u);
        assert(yn == (sh * den) * v);
        assert(wn == den * st);
        assert(-xn == m * (4 * i + 2)) by (nonlinear_arith)
            requires
                xn == (sw * den) * u,
                den == -(sw * sh),
                u == (2 * i + 1) * (2 * sh),
                m == (sw * sh) * (sw * sh),
        ;
        assert(-yn == m * (4 * j + 2)) by (nonlinear_arith)
            requires
                yn == (sh * den) * v,
                den == -(sw * sh),
                v == (2 * j + 1) * (2 * sw),
                m == (sw * sh) * (sw * sh),
        ;
        assert(-wn == 4 * m) by (nonlinear_arith)
            requires
                wn == den * st,
                den == -(sw * sh),
                st == 4 * sw * sh,
                m == (sw * sh) * (sw * sh),
        ;
        lemma_centre_quotient(m, i);
        lemma_centre_quotient(m, j);
        assert(warp_source(q, sw, sh, sw, sh, i, j) == Some((i, j)));
    }
}


/// The transform sends the corners of the unit square to the quadrilateral's
/// corners: `(0, 0)` to `b`, `(1, 0)` to `c`, `(0, 1)` to `a` and `(1, 1)` to
/// `d`. Each coordinate's numerator is the corner's coordinate times the common
/// denominator, at every scale `s`.
pub proof fn lemma_warp_hits_corners(q: Quad, s: int)
    ensures
        warp_num(q, q.b.x as int, q.c.x as int, q.a.x as int, 0, 0, s) == q.b.x * warp_w(q, 0, 0, s),
        warp_num(q, q.b.y as int, q.c.y as int, q.a.y as int, 0, 0, s) == q.b.y * warp_w(q, 0, 0, s),
        warp_num(q, q.b.x as int, q.c.x as int, q.a.x as int, s, 0, s) == q.c.x * warp_w(q, s, 0, s),
        warp_num(q, q.b.y as int, q.c.y as int, q.a.y as int, s, 0, s) == q.c.y * warp_w(q, s, 0, s),
        warp_num(q, q.b.x as int, q.c.x as int, q.a.x as int, 0, s, s) == q.a.x * warp_w(q, 0, s, s),
        warp_num(q, q.b.y as int, q.c.y as int, q.a.y as int, 0, s, s) == q.a.y * warp_w(q, 0, s, s),
        warp_num(q, q.b.x as int, q.c.x as int, q.a.x as int, s, s, s) == q.d.x * warp_w(q, s, s, s),
        warp_num(q, q.b.y as int, q.c.y as int, q.a.y as int, s, s, s) == q.d.y * warp_w(q, s, s, s),
{
    let (ax, ay, bx, by, cx, cy, dx, dy) = (
        q.a.x as int,
        q.a.y as int,
        q.b.x as int,
        q.b.y as int,
        q.c.x as int,
        q.c.y as int,
        q.d.x as int,
        q.d.y as int,
    );
    let dx1 = cx - dx;
    let dx2 = ax - dx;
    let dy1 = cy - dy;
    let dy2 = ay - dy;
    let sx = bx - cx + dx - ax;
    let sy = by - cy + dy - ay;
    let den = warp_den(q);
    let g = warp_g(q);
    let h = warp_h(q);
    assert(den == dx1 * dy2 - dx2 * dy1);
    assert(g == sx * dy2 - sy * dx2);
    assert(h == dx1 * sy - dy1 * sx);
    assert(g * dx1 + h * dx2 == sx * den) by (nonlinear_arith)
        requires
            den == dx1 * dy2 - dx2 * dy1,
            g == sx * dy2 - sy * dx2,
            h == dx1 * sy - dy1 * sx,
    ;
    assert(g * dy1 + h * dy2 == sy * den) by (nonlinear_arith)
        requires
            den == dx1 * dy2 - dx2 * dy1,
            g == sx * dy2 - sy * dx2,
            h == dx1 * sy - dy1 * sx,
    ;
    lemma_corner_scaled(g, h, den, bx, cx, ax, dx, s);
    lemma_corner_scaled(g, h, den, by, cy, ay, dy, s);
}

/// One coordinate of the corner images, from the identity
/// `g * (p1 - p2) + h * (p3 - p2) == (p0 - p1 + p2 - p3) * den`.
proof fn lemma_corner_scaled(g: int, h: int, den: int, p0: int, p1: int, p3: int, p2: int, s: int)
    requires
        g * (p1 - p2) + h * (p3 - p2) == (p0 - p1 + p2 - p3) * den,
    ensures
        ((p1 - p0) * den + g * p1) * 0 + ((p3 - p0) * den + h * p3) * 0 + p0 * den * s == p0 * (g * 0
            + h * 0 + den * s),
        ((p1 - p0) * den + g * p1) * s + ((p3 - p0) * den + h * p3) * 0 + p0 * den * s == p1 * (g * s
            + h * 0 + den * s),
        ((p1 - p0) * den + g * p1) * 0 + ((p3 - p0) * den + h * p3) * s + p0 * den * s == p3 * (g * 0
            + h * s + den * s),
        ((p1 - p0) * den + g * p1) * s + ((p3 - p0) * den + h * p3) * s + p0 * den * s == p2 * (g * s
            + h * s + den * s),
{
    let e = (p1 - p0) * den + g * p1;
    let f = (p3 - p0) * den + h * p3;
    let z = p0 * den;
    assert(g * (p1 - p2) == g * p1 - g * p2) by (nonlinear_arith);
    assert(h * (p3 - p2) == h * p3 - h * p2) by (nonlinear_arith);
    assert((p0 - p1 + p2 - p3) * den == p0 * den - p1 * den + p2 * den - p3 * den) by (nonlinear_arith);
    assert((p1 - p0) * den == p1 * den - p0 * den) by (nonlinear_arith);
    assert((p3 - p0) * den == p3 * den - p0 * den) by (nonlinear_arith);
    assert(p2 * (g + h + den) == g * p2 + h * p2 + p2 * den) by (nonlinear_arith);
    assert(e + f + z == p2 * (g + h + den));
    assert(e + z == p1 * (g + den)) by (nonlinear_arith)
        requires
            e == (p1 - p0) * den + g * p1,
            z == p0 * den,
    ;
    assert(f + z == p3 * (h + den)) by (nonlinear_arith)
        requires
            f == (p3 - p0) * den + h * p3,
            z == p0 * den,
    ;
    assert(e * s + f * s + z * s == p2 * (g * s + h * s + den * s)) by (nonlinear_arith)
        requires
            e + f + z == p2 * (g + h + den),
    ;
    assert(e * s + z * s == p1 * (g * s + den * s)) by (nonlinear_arith)
        requires
            e + z == p1 * (g + den),
    ;
    assert(f * s + z * s == p3 * (h * s + den * s)) by (nonlinear_arith)
        requires
            f + z == p3 * (h + den),
    ;
    assert(e * 0 == 0 && f * 0 == 0 && g * 0 == 0 && h * 0 == 0);
    assert(z * s == p0 * (den * s)) by (nonlinear_arith)
        requires
            z == p0 * den,
    ;
}

impl RGBAImage {
    /// Warps the quadrilateral `quad` of this image onto a `width` by `height`
    /// rectangle, reading for each output pixel the source pixel under the
    /// image of its centre (see `warped_byte`).
    pub fn perspective(&self, quad: Quad, width: usize, height: usize) -> (out: RGBAImage)
        requires
            self.wf(),
            raster_len(width as int, height as int) <= usize::MAX,
        ensures
            out.wf(),
            out.width == width,
            out.height == height,
            forall|i: int, j: int, c: int|
                0 <= i < width && 0 <= j < height && 0 <= c < 4 ==> #[trigger] out.data@[pix(
                    width as int,
                    i,
                    j,
                    c,
                )] == warped_byte(
                    self.data@,
                    self.width as int,
                    self.height as int,
                    quad,
                    width as int,
                    height as int,
                    i,
                    j,
                    c,
                ),
    {
        let sw = self.width;
        let sh = self.height;
        let src_len = self.data.len();
        let k = coeffs(quad);
        proof {
            assert(width * height <= width * height * 4) by (nonlinear_arith)
                requires
                    0 <= width,
                    0 <= height,
            ;
            assert(width * height * 4 == 4 * width * height) by (nonlinear_arith);
        }
        let s: u64 = (width * height * 4) as u64;
        let mut data: Vec<u8> = vec![0u8; width * height * 4];
        let mut j: usize = 0;
        while j < height
            invariant
                j <= height,
                k.matches(quad),
                k.bounded(),
                self.wf(),
                src_len == self.data@.len(),
                sw == self.width,
                sh == self.height,
                s == sample_s(width as int, height as int),
                data@.len() == raster_len(width as int, height as int),
                raster_len(width as int, height as int) <= usize::MAX,
                forall|ii: int, jj: int, c: int|
                    0 <= ii < width && 0 <= jj < j && 0 <= c < 4 ==> #[trigger] data@[pix(
                        width as int,
                        ii,
                        jj,
                        c,
                    )] == warped_byte(
                        self.data@,
                        sw as int,
                        sh as int,
                        quad,
                        width as int,
                        height as int,
                        ii,
                        jj,
                        c,
                    ),
            decreases height - j,
        {
            let mut i: usize = 0;
            while i < width
                invariant
                    j < height,
                    i <= width,
                    k.matches(quad),
                    k.bounded(),
                    self.wf(),
                    src_len == self.data@.len(),
                    sw == self.width,
                    sh == self.height,
                    s == sample_s(width as int, height as int),
                    data@.len() == raster_len(width as int, height as int),
                    raster_len(width as int, height as int) <= usize::MAX,
                    forall|ii: int, jj: int, c: int|
                        0 <= ii < width && 0 <= jj < height && 0 <= c < 4 && (jj < j || (jj == j
                            && ii < i)) ==> #[trigger] data@[pix(width as int, ii, jj, c)]
                            == warped_byte(
                            self.data@,
                            sw as int,
                            sh as int,
                            quad,
                            width as int,
                            height as int,
                            ii,
                            jj,
                            c,
                        ),
                decreases width - i,
            {
                proof {
                    assert((2 * i + 1) * (2 * height) <= width * height * 4 && 2 * height
                        <= width * height * 4) by (nonlinear_arith)
                        requires
                            0 <= i < width,
                            0 <= height,
                    ;
                    assert((2 * j + 1) * (2 * width) <= width * height * 4 && 2 * width
                        <= width * height * 4) by (nonlinear_arith)
                        requires
                            0 <= j < height,
                            0 <= width,
                    ;
                }
                let u: u64 = ((2 * i + 1) * (2 * height)) as u64;
                let v: u64 = ((2 * j + 1) * (2 * width)) as u64;
                let mut xn = combine(k.ax, k.bx, k.cx, u, v, s);
                let mut yn = combine(k.ay, k.by, k.cy, u, v, s);
                let mut wn = combine(k.g, k.h, k.den, u, v, s);
                let ghost x0 = xn.value();
                let ghost y0 = yn.value();
                let ghost w0 = wn.value();
                proof {
                    assert(u == sample_u(height as int, i as int));
                    assert(v == sample_v(width as int, j as int));
                    assert(x0 == warp_num(
                        quad,
                        quad.b.x as int,
                        quad.c.x as int,
                        quad.a.x as int,
                        u as int,
                        v as int,
                        s as int,
                    ));
                    assert(y0 == warp_num(
                        quad,
                        quad.b.y as int,
                        quad.c.y as int,
                        quad.a.y as int,
                        u as int,
                        v as int,
                        s as int,
                    ));
                    assert(w0 == warp_w(quad, u as int, v as int, s as int));
                    lemma_mul_bound(k.g as int, u as int, 0x4_0000_0000_0000_0000, 0x1_0000_0000_0000_0000);
                    lemma_mul_bound(k.h as int, v as int, 0x4_0000_0000_0000_0000, 0x1_0000_0000_0000_0000);
                    lemma_mul_bound(k.den as int, s as int, 0x4_0000_0000_0000_0000, 0x1_0000_0000_0000_0000);
                    assert(-0x10_0000_0000_0000_0000_0000_0000_0000_0000 <= w0
                        <= 0x10_0000_0000_0000_0000_0000_0000_0000_0000);
                }
                if is_negative(wn) {
                    xn = wide_neg(xn);
                    yn = wide_neg(yn);
                    wn = wide_neg(wn);
                }
                let ghost expected = warp_source(
                    quad,
                    sw as int,
                    sh as int,
                    width as int,
                    height as int,
                    i as int,
                    j as int,
                );
                let px: [u8; 4] = if is_zero(wn) || sw == 0 || sh == 0 {
                    [0u8, 0u8, 0u8, 0u8]
                } else {
                    proof {
                        assert(sw <= 0x4000_0000_0000_0000 && sh <= 0x4000_0000_0000_0000) by (nonlinear_arith)
                            requires
                                sw * sh * 4 <= 0xffff_ffff_ffff_ffff,
                                1 <= sw,
                                1 <= sh,
                        ;
                        assert(0 <= wn.hi <= 0x1_0000);
                    }
                    let x = clamped_quotient(xn, wn, sw);
                    let y = clamped_quotient(yn, wn, sh);
                    assert(expected == Some((x as int, y as int)));
                    let o = pixel_offset(sw, sh, x, y, 0);
                    proof {
                        lemma_pix_in_raster(sw as int, sh as int, x as int, y as int, 3);
                    }
                    [self.data[o], self.data[o + 1], self.data[o + 2], self.data[o + 3]]
                };
                let ghost prev = data@;
                write_pixel(data.as_mut_slice(), width, height, i, j, px);
                proof {
                    assert forall|ii: int, jj: int, c: int|
                        0 <= ii < width && 0 <= jj < height && 0 <= c < 4 && (jj < j || (jj == j
                            && ii < i + 1)) implies #[trigger] data@[pix(width as int, ii, jj, c)]
                        == warped_byte(
                        self.data@,
                        sw as int,
                        sh as int,
                        quad,
                        width as int,
                        height as int,
                        ii,
                        jj,
                        c,
                    ) by {
                        lemma_pix_in_raster(width as int, height as int, ii, jj, c);
                        if ii == i && jj == j {
                            assert(data@[pix(width as int, i as int, j as int, c)] == px@[c]);
                        } else {
                            lemma_pixel_blocks_apart(width as int, ii, jj, i as int, j as int, c);
                            assert(prev[pix(width as int, ii, jj, c)] == warped_byte(
                                self.data@,
                                sw as int,
                                sh as int,
                                quad,
                                width as int,
                                height as int,
                                ii,
                                jj,
                                c,
                            ));
                        }
                    }
                }
                i = i + 1;
            }
            j = j + 1;
        }
        RGBAImage { data, width, height }
    }
}

} // verus!
