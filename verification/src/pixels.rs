//! Per-pixel RGBA filters: grayscale, colour keying for signatures, and the
//! black-and-white threshold.
use vstd::prelude::*;

verus! {

/// An opaque colour without alpha.
#[derive(Clone, Copy, Debug, PartialEq, Eq)]
pub struct RGB {
    pub r: u8,
    pub g: u8,
    pub b: u8,
}

/// A colour with alpha.
#[derive(Clone, Copy, Debug, PartialEq, Eq)]
pub struct RGBA {
    pub r: u8,
    pub g: u8,
    pub b: u8,
    pub a: u8,
}

/// Start of the four-byte group that holds byte `k`.
pub open spec fn group_start(k: int) -> int {
    k - k % 4
}

/// Byte `k` after `grayscale_image`: each of the three colour bytes of a group
/// becomes the mean of the three, rounded down; the fourth byte stays.
pub open spec fn gray_byte(s: Seq<u8>, k: int) -> u8 {
    let i = group_start(k);
    if k % 4 < 3 {
        ((s[i] + s[i + 1] + s[i + 2]) / 3) as u8
    } else {
        s[k]
    }
}

/// The buffer after `grayscale_image`.
pub open spec fn grayscale(s: Seq<u8>) -> Seq<u8> {
    Seq::new(s.len(), |k: int| gray_byte(s, k))
}

/// Buffer lengths `grayscale_image` accepts: a last, partial group must still
/// hold its three colour bytes.
pub open spec fn gray_len_ok(n: int) -> bool {
    n % 4 != 1 && n % 4 != 2
}

/// Replaces red, green and blue of every pixel by their mean, rounded down;
/// alpha is kept.
pub fn grayscale_image(pixels: &mut [u8])
    requires
        gray_len_ok(old(pixels)@.len() as int),
    ensures
        final(pixels)@ == grayscale(old(pixels)@),
{
    let ghost s0 = old(pixels)@;
    let n = pixels.len();
    let mut i: usize = 0;
    while i < n
        invariant
            n == pixels@.len(),
            n == s0.len(),
            gray_len_ok(n as int),
            i % 4 == 0 || i == n,
            i <= n,
            forall|k: int| 0 <= k < i ==> #[trigger] pixels@[k] == gray_byte(s0, k),
            forall|k: int| i <= k < n ==> #[trigger] pixels@[k] == s0[k],
        decreases n - i,
    {
        let lightness = ((pixels[i] as u32 + pixels[i + 1] as u32 + pixels[i + 2] as u32) / 3) as u8;
        pixels[i] = lightness;
        pixels[i + 1] = lightness;
        pixels[i + 2] = lightness;
        proof {
            assert forall|k: int| 0 <= k < n && k < i + 4 implies #[trigger] pixels@[k] == gray_byte(
                s0,
                k,
            ) by {
                if k >= i {
                    assert(group_start(k) == i);
                }
            }
        }
        i = if n - i > 4 {
            i + 4
        } else {
            n
        };
    }
    assert(pixels@ =~= grayscale(s0));
}

/// Grayscale is idempotent: a second pass changes nothing.
pub proof fn lemma_grayscale_idempotent(s: Seq<u8>)
    requires
        gray_len_ok(s.len() as int),
    ensures
        grayscale(grayscale(s)) == grayscale(s),
{
    let g = grayscale(s);
    assert forall|k: int| 0 <= k < s.len() implies #[trigger] grayscale(g)[k] == g[k] by {
        let i = group_start(k);
        if k % 4 < 3 {
            assert(i % 4 == 0 && i + 2 < s.len());
            assert(group_start(i) == i && group_start(i + 1) == i && group_start(i + 2) == i);
            assert(g[i] == g[i + 1] && g[i + 1] == g[i + 2]);
        }
    }
    assert(grayscale(g) =~= g);
}


/// Each colour byte of a grayscale pixel is the mean of the pixel's three
/// colour bytes rounded down: `3 g <= r + g0 + b < 3 g + 3`. In particular a
/// pixel that is already gray keeps its value.
pub proof fn lemma_grayscale_is_mean(s: Seq<u8>, i: int, k: int)
    requires
        0 <= i,
        i % 4 == 0,
        i + 2 < s.len(),
        i <= k < i + 3,
    ensures
        3 * grayscale(s)[k] <= s[i] + s[i + 1] + s[i + 2] < 3 * grayscale(s)[k] + 3,
        s[i] == s[i + 1] && s[i + 1] == s[i + 2] ==> grayscale(s)[k] == s[i],
{
    assert(group_start(k) == i && k % 4 < 3);
    let sum = s[i] + s[i + 1] + s[i + 2];
    assert(sum / 3 <= 255);
    assert(grayscale(s)[k] == sum / 3);
}

/// After grayscale the three colour bytes of every whole pixel are equal, and
/// alpha is unchanged.
pub proof fn lemma_grayscale_is_gray(s: Seq<u8>, i: int)
    requires
        0 <= i,
        i % 4 == 0,
        i + 3 < s.len(),
    ensures
        grayscale(s)[i] == grayscale(s)[i + 1],
        grayscale(s)[i + 1] == grayscale(s)[i + 2],
        grayscale(s)[i + 3] == s[i + 3],
{
    assert(group_start(i) == i && group_start(i + 1) == i && group_start(i + 2) == i);
}

/// Sum of the channel-wise distances between two colours.
pub open spec fn color_distance(r1: u8, g1: u8, b1: u8, r2: u8, g2: u8, b2: u8) -> int {
    abs(r1 - r2) + abs(g1 - g2) + abs(b1 - b2)
}

pub open spec fn abs(v: int) -> int {
    if v < 0 {
        -v
    } else {
        v
    }
}

/// Whether the two replacement colours are as far apart as colours can be
/// (mean channel distance of 255), which makes the unselected alpha a mask.
pub open spec fn is_mask(selected: RGBA, unselected: RGBA) -> bool {
    color_distance(selected.r, selected.g, selected.b, unselected.r, unselected.g, unselected.b) / 3
        == 255
}

/// The four bytes that `set_image_data` writes for a pixel `(r, g, b)`: the
/// selected colour when its mean channel distance to `target` is at most
/// `tolerance`, else the unselected colour, whose alpha becomes that mean
/// distance when the selected alpha is zero and the colours form a mask.
pub open spec fn keyed_pixel(
    r: u8,
    g: u8,
    b: u8,
    target: RGB,
    selected: RGBA,
    unselected: RGBA,
    tolerance: u32,
) -> Seq<u8> {
    let d = color_distance(r, g, b, target.r, target.g, target.b);
    if d > 3 * tolerance {
        seq![
            unselected.r,
            unselected.g,
            unselected.b,
            if selected.a == 0 && is_mask(selected, unselected) {
                (d / 3) as u8
            } else {
                unselected.a
            },
        ]
    } else {
        seq![selected.r, selected.g, selected.b, selected.a]
    }
}

/// Keying paints every pixel in one of the two colours.
pub proof fn lemma_keyed_pixel_colours(
    r: u8,
    g: u8,
    b: u8,
    target: RGB,
    selected: RGBA,
    unselected: RGBA,
    tolerance: u32,
)
    ensures
        ({
            let p = keyed_pixel(r, g, b, target, selected, unselected, tolerance);
            (p[0] == selected.r && p[1] == selected.g && p[2] == selected.b && p[3] == selected.a)
                || (p[0] == unselected.r && p[1] == unselected.g && p[2] == unselected.b)
        }),
{
}

/// Byte `k` after `set_image_data`.
pub open spec fn keyed_byte(
    s: Seq<u8>,
    k: int,
    target: RGB,
    selected: RGBA,
    unselected: RGBA,
    tolerance: u32,
) -> u8 {
    let i = group_start(k);
    keyed_pixel(s[i], s[i + 1], s[i + 2], target, selected, unselected, tolerance)[k % 4]
}

fn distance(r1: u8, g1: u8, b1: u8, r2: u8, g2: u8, b2: u8) -> (d: u32)
    ensures
        d == color_distance(r1, g1, b1, r2, g2, b2),
        d <= 765,
{
    let dr = if r1 >= r2 {
        r1 - r2
    } else {
        r2 - r1
    };
    let dg = if g1 >= g2 {
        g1 - g2
    } else {
        g2 - g1
    };
    let db = if b1 >= b2 {
        b1 - b2
    } else {
        b2 - b1
    };
    dr as u32 + dg as u32 + db as u32
}

/// Keys every pixel against `target`: pixels whose mean channel distance to it
/// is at most `tolerance` (in whole units) take `new_color_selected`, the
/// others `new_color_unselected` (see `keyed_pixel`).
pub fn set_image_data(
    pixels: &mut [u8],
    target_color: RGB,
    new_color_selected: RGBA,
    new_color_unselected: RGBA,
    tolerance: u32,
)
    requires
        old(pixels)@.len() % 4 == 0,
    ensures
        final(pixels)@.len() == old(pixels)@.len(),
        forall|k: int|
            0 <= k < old(pixels)@.len() ==> #[trigger] final(pixels)@[k] == keyed_byte(
                old(pixels)@,
                k,
                target_color,
                new_color_selected,
                new_color_unselected,
                tolerance,
            ),
{
    let ghost s0 = old(pixels)@;
    let mask = distance(
        new_color_selected.r,
        new_color_selected.g,
        new_color_selected.b,
        new_color_unselected.r,
        new_color_unselected.g,
        new_color_unselected.b,
    ) / 3 == 255;
    let n = pixels.len();
    let mut i: usize = 0;
    while i < n
        invariant
            n == pixels@.len(),
            n == s0.len(),
            n % 4 == 0,
            i % 4 == 0,
            i <= n,
            mask == is_mask(new_color_selected, new_color_unselected),
            forall|k: int|
                0 <= k < i ==> #[trigger] pixels@[k] == keyed_byte(
                    s0,
                    k,
                    target_color,
                    new_color_selected,
                    new_color_unselected,
                    tolerance,
                ),
            forall|k: int| i <= k < n ==> #[trigger] pixels@[k] == s0[k],
        decreases n - i,
    {
        let cr = pixels[i];
        let cg = pixels[i + 1];
        let cb = pixels[i + 2];
        let d = distance(cr, cg, cb, target_color.r, target_color.g, target_color.b);
        let ghost expected = keyed_pixel(
            cr,
            cg,
            cb,
            target_color,
            new_color_selected,
            new_color_unselected,
            tolerance,
        );
        if d as u64 > 3 * tolerance as u64 {
            pixels[i] = new_color_unselected.r;
            pixels[i + 1] = new_color_unselected.g;
            pixels[i + 2] = new_color_unselected.b;
            pixels[i + 3] = if new_color_selected.a == 0 && mask {
                (d / 3) as u8
            } else {
                new_color_unselected.a
            };
        } else {
            pixels[i] = new_color_selected.r;
            pixels[i + 1] = new_color_selected.g;
            pixels[i + 2] = new_color_selected.b;
            pixels[i + 3] = new_color_selected.a;
        }
        proof {
            assert forall|k: int| 0 <= k < i + 4 implies #[trigger] pixels@[k] == keyed_byte(
                s0,
                k,
                target_color,
                new_color_selected,
                new_color_unselected,
                tolerance,
            ) by {
                if k >= i {
                    assert(group_start(k) == i);
                    assert(pixels@[k] == expected[k - i]);
                }
            }
        }
        i = i + 4;
    }
}


/// Distance between two bytes.
pub open spec fn byte_dist(a: u8, b: u8) -> int {
    if a >= b {
        a - b
    } else {
        b - a
    }
}

/// What keying does to the pixel at bytes `i..i + 4`, stated from the bytes:
/// with `d` the sum of the channel distances to `target`, a pixel with
/// `d <= 3 * tolerance` becomes exactly the selected colour; any other pixel
/// takes the unselected red, green and blue, and keeps the unselected alpha
/// unless the selected alpha is zero and the two colours are opposite (mean
/// channel distance 255), in which case its alpha is `d / 3`.
pub proof fn lemma_keying_law(
    s: Seq<u8>,
    i: int,
    target: RGB,
    selected: RGBA,
    unselected: RGBA,
    tolerance: u32,
)
    requires
        0 <= i,
        i % 4 == 0,
    ensures
        ({
            let d = byte_dist(s[i], target.r) + byte_dist(s[i + 1], target.g) + byte_dist(
                s[i + 2],
                target.b,
            );
            let opposite = (byte_dist(selected.r, unselected.r) + byte_dist(selected.g, unselected.g)
                + byte_dist(selected.b, unselected.b)) / 3 == 255;
            let o0 = keyed_byte(s, i, target, selected, unselected, tolerance);
            let o1 = keyed_byte(s, i + 1, target, selected, unselected, tolerance);
            let o2 = keyed_byte(s, i + 2, target, selected, unselected, tolerance);
            let o3 = keyed_byte(s, i + 3, target, selected, unselected, tolerance);
            &&& d <= 3 * tolerance ==> o0 == selected.r && o1 == selected.g && o2 == selected.b && o3
                == selected.a
            &&& d > 3 * tolerance ==> o0 == unselected.r && o1 == unselected.g && o2 == unselected.b
            &&& d > 3 * tolerance && selected.a != 0 ==> o3 == unselected.a
            &&& d > 3 * tolerance && !opposite ==> o3 == unselected.a
            &&& d > 3 * tolerance && selected.a == 0 && opposite ==> o3 == d / 3
        }),
{
    assert(group_start(i) == i && group_start(i + 1) == i && group_start(i + 2) == i
        && group_start(i + 3) == i);
    assert((i + 1) % 4 == 1 && (i + 2) % 4 == 2 && (i + 3) % 4 == 3);
    let p = keyed_pixel(s[i], s[i + 1], s[i + 2], target, selected, unselected, tolerance);
    assert(keyed_byte(s, i, target, selected, unselected, tolerance) == p[0]);
    assert(keyed_byte(s, i + 1, target, selected, unselected, tolerance) == p[1]);
    assert(keyed_byte(s, i + 2, target, selected, unselected, tolerance) == p[2]);
    assert(keyed_byte(s, i + 3, target, selected, unselected, tolerance) == p[3]);
    assert(color_distance(s[i], s[i + 1], s[i + 2], target.r, target.g, target.b) == byte_dist(
        s[i],
        target.r,
    ) + byte_dist(s[i + 1], target.g) + byte_dist(s[i + 2], target.b));
    assert(is_mask(selected, unselected) == ((byte_dist(selected.r, unselected.r) + byte_dist(
        selected.g,
        unselected.g,
    ) + byte_dist(selected.b, unselected.b)) / 3 == 255));
}

/// Rec. 601-style luma in 8-bit fixed point.
pub open spec fn luma(r: u8, g: u8, b: u8) -> int {
    (r * 77 + g * 150 + b * 29) / 256
}

/// The black-and-white value of a pixel: black below luma 190, else white.
pub open spec fn bw_value(r: u8, g: u8, b: u8) -> u8 {
    if luma(r, g, b) < 190 {
        0
    } else {
        255
    }
}

/// Byte `k` of the black-and-white image: the colour bytes of a group take the
/// black-or-white value of the normalized pixel, the fourth byte is `src`'s alpha.
pub open spec fn bw_byte(normalized: Seq<u8>, src: Seq<u8>, k: int) -> u8 {
    let i = group_start(k);
    if k % 4 < 3 {
        bw_value(normalized[i], normalized[i + 1], normalized[i + 2])
    } else {
        src[k]
    }
}

/// Thresholds the lighting-normalized pixels to pure black or white at a luma
/// of 190, keeping the alpha of `src`.
pub fn threshold_to_bw(normalized: &[u8], src: &[u8], dst: &mut [u8])
    requires
        src@.len() % 4 == 0,
        src@.len() <= normalized@.len(),
        src@.len() <= old(dst)@.len(),
    ensures
        final(dst)@.len() == old(dst)@.len(),
        forall|k: int| 0 <= k < src@.len() ==> #[trigger] final(dst)@[k] == bw_byte(normalized@, src@, k),
        forall|k: int| src@.len() <= k < old(dst)@.len() ==> #[trigger] final(dst)@[k] == old(dst)@[k],
{
    let ghost d0 = old(dst)@;
    let n = src.len();
    let nl = normalized.len();
    let dl = dst.len();
    let mut i: usize = 0;
    while i < n
        invariant
            n == src@.len(),
            nl == normalized@.len(),
            dl == dst@.len(),
            dl == d0.len(),
            n <= nl,
            n <= dl,
            n % 4 == 0,
            i % 4 == 0,
            i <= n,
            forall|k: int| 0 <= k < i ==> #[trigger] dst@[k] == bw_byte(normalized@, src@, k),
            forall|k: int| i <= k < dl ==> #[trigger] dst@[k] == d0[k],
        decreases n - i,
    {
        let sum: u32 = normalized[i] as u32 * 77 + normalized[i + 1] as u32 * 150 + normalized[i + 2] as u32 * 29;
        let gray = (sum >> 8) as u8;
        proof {
            assert(sum >> 8 == sum / 256) by (bit_vector);
            assert(sum / 256 <= 255);
        }
        let val: u8 = if gray < 190 {
            0
        } else {
            255
        };
        dst[i] = val;
        dst[i + 1] = val;
        dst[i + 2] = val;
        dst[i + 3] = src[i + 3];
        proof {
            assert forall|k: int| 0 <= k < i + 4 implies #[trigger] dst@[k] == bw_byte(
                normalized@,
                src@,
                k,
            ) by {
                if k >= i {
                    assert(group_start(k) == i);
                }
            }
        }
        i = i + 4;
    }
}


/// The black-and-white pixel at bytes `i..i + 4`, stated from the bytes:
/// its colour bytes are black exactly when `77 r + 150 g + 29 b` of the
/// normalized pixel is below `190 * 256`, else white, and its alpha is the
/// source alpha.
pub proof fn lemma_bw_law(normalized: Seq<u8>, src: Seq<u8>, i: int)
    requires
        0 <= i,
        i % 4 == 0,
    ensures
        ({
            let weighted = 77 * normalized[i] + 150 * normalized[i + 1] + 29 * normalized[i + 2];
            let colour: u8 = if weighted < 190 * 256 {
                0
            } else {
                255
            };
            &&& bw_byte(normalized, src, i) == colour
            &&& bw_byte(normalized, src, i + 1) == colour
            &&& bw_byte(normalized, src, i + 2) == colour
            &&& bw_byte(normalized, src, i + 3) == src[i + 3]
        }),
{
    assert(group_start(i) == i && group_start(i + 1) == i && group_start(i + 2) == i
        && group_start(i + 3) == i);
    assert((i + 1) % 4 == 1 && (i + 2) % 4 == 2 && (i + 3) % 4 == 3);
    let weighted = 77 * normalized[i] + 150 * normalized[i + 1] + 29 * normalized[i + 2];
    assert(luma(normalized[i], normalized[i + 1], normalized[i + 2]) == weighted / 256);
    assert((weighted / 256 < 190) == (weighted < 190 * 256));
}

/// Every colour byte of a black-and-white image is 0 or 255.
pub proof fn lemma_bw_is_binary(normalized: Seq<u8>, src: Seq<u8>, k: int)
    requires
        k % 4 < 3,
    ensures
        bw_byte(normalized, src, k) == 0 || bw_byte(normalized, src, k) == 255,
{
}

} // verus!
