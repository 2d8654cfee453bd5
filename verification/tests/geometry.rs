use docscan::buffer::grow_buffer;
use docscan::geometry::{sort_quad, Point, Quad};
use docscan::image::RGBAImage;

fn p(x: i32, y: i32) -> Point {
    Point { x, y }
}

#[test]
fn sort_quad_names_corners() {
    let q = Quad { a: p(10, 100), b: p(0, 0), c: p(100, 0), d: p(90, 110) };
    let s = sort_quad(q);
    assert_eq!(s.a, p(10, 100));
    assert_eq!(s.b, p(0, 0));
    assert_eq!(s.c, p(100, 0));
    assert_eq!(s.d, p(90, 110));
}

#[test]
fn sort_quad_reorders_scrambled_corners() {
    let q = Quad { a: p(100, 0), b: p(90, 110), c: p(0, 0), d: p(10, 100) };
    let s = sort_quad(q);
    assert_eq!(s, Quad { a: p(10, 100), b: p(0, 0), c: p(100, 0), d: p(90, 110) });
}

#[test]
fn sort_quad_is_stable_on_ties() {
    // equal x: the earlier corner goes left; equal y: the earlier one is on top
    let q = Quad { a: p(5, 7), b: p(5, 7), c: p(5, 1), d: p(5, 9) };
    let s = sort_quad(q);
    assert_eq!(s, Quad { a: p(5, 7), b: p(5, 7), c: p(5, 1), d: p(5, 9) });
}

#[test]
fn sort_quad_keeps_the_corner_set() {
    let q = Quad { a: p(-3, 4), b: p(8, -2), c: p(1, 1), d: p(2, 9) };
    let s = sort_quad(q);
    let mut before = vec![q.a, q.b, q.c, q.d];
    let mut after = vec![s.a, s.b, s.c, s.d];
    before.sort_by_key(|p| (p.x, p.y));
    after.sort_by_key(|p| (p.x, p.y));
    assert_eq!(before, after);
    assert!(s.b.y <= s.a.y && s.c.y <= s.d.y);
    assert!(s.a.x.max(s.b.x) <= s.c.x.min(s.d.x));
}

fn image(w: usize, h: usize) -> RGBAImage {
    let mut data = Vec::new();
    for y in 0..h {
        for x in 0..w {
            data.extend_from_slice(&[x as u8, y as u8, (x + y) as u8, 255]);
        }
    }
    RGBAImage { data, width: w, height: h }
}

#[test]
fn perspective_of_whole_image_is_identity() {
    let img = image(3, 2);
    let q = Quad { a: p(0, 2), b: p(0, 0), c: p(3, 0), d: p(3, 2) };
    let out = img.perspective(q, 3, 2);
    assert_eq!(out.width, 3);
    assert_eq!(out.height, 2);
    assert_eq!(out.data, img.data);
}

#[test]
fn perspective_crops_a_rectangle() {
    let img = image(4, 2);
    let q = Quad { a: p(2, 2), b: p(2, 0), c: p(4, 0), d: p(4, 2) };
    let out = img.perspective(q, 2, 2);
    assert_eq!(out.data, vec![2u8, 0, 2, 255, 3, 0, 3, 255, 2, 1, 3, 255, 3, 1, 4, 255]);
}

#[test]
fn perspective_scales_up() {
    let img = image(2, 1);
    let q = Quad { a: p(0, 1), b: p(0, 0), c: p(2, 0), d: p(2, 1) };
    let out = img.perspective(q, 4, 1);
    let xs: Vec<u8> = out.data.iter().step_by(4).copied().collect();
    assert_eq!(xs, vec![0u8, 0, 1, 1]);
}

#[test]
fn perspective_clamps_outside_points() {
    let img = image(2, 2);
    // a quad twice the image: the lower right half reads the last pixel
    let q = Quad { a: p(0, 4), b: p(0, 0), c: p(4, 0), d: p(4, 4) };
    let out = img.perspective(q, 2, 2);
    assert_eq!(&out.data[12..16], &[1u8, 1, 2, 255]);
    assert_eq!(&out.data[0..4], &[1u8, 1, 2, 255]);
}

#[test]
fn perspective_of_degenerate_quad_is_transparent() {
    let img = image(2, 2);
    let q = Quad { a: p(1, 1), b: p(1, 1), c: p(1, 1), d: p(1, 1) };
    let out = img.perspective(q, 3, 2);
    assert_eq!(out.data, vec![0u8; 24]);
}

#[test]
fn perspective_of_empty_source_is_transparent() {
    let img = RGBAImage { data: Vec::new(), width: 0, height: 0 };
    let q = Quad { a: p(0, 3), b: p(0, 0), c: p(3, 0), d: p(3, 3) };
    let out = img.perspective(q, 2, 1);
    assert_eq!(out.data, vec![0u8; 8]);
}

#[test]
fn perspective_flips_a_mirrored_quad() {
    let img = image(2, 1);
    // corners swapped left to right: the output is the mirror image
    let q = Quad { a: p(2, 1), b: p(2, 0), c: p(0, 0), d: p(0, 1) };
    let out = img.perspective(q, 2, 1);
    let xs: Vec<u8> = out.data.iter().step_by(4).copied().collect();
    assert_eq!(xs, vec![1u8, 0]);
}

#[test]
fn buffer_grows_with_zeros() {
    let mut b = vec![1u8, 2];
    grow_buffer(&mut b, 5);
    assert_eq!(b, vec![1u8, 2, 0, 0, 0]);
    grow_buffer(&mut b, 3);
    assert_eq!(b, vec![1u8, 2, 0, 0, 0]);
}

#[test]
fn sort_quad_ignores_input_order() {
    let q = Quad { a: p(10, 100), b: p(0, 0), c: p(100, 0), d: p(90, 110) };
    let expected = sort_quad(q);
    let corners = [q.a, q.b, q.c, q.d];
    let orders = [[0, 1, 2, 3], [3, 2, 1, 0], [1, 3, 0, 2], [2, 0, 3, 1], [1, 0, 3, 2]];
    for o in orders.iter() {
        let r = Quad { a: corners[o[0]], b: corners[o[1]], c: corners[o[2]], d: corners[o[3]] };
        assert_eq!(sort_quad(r), expected);
    }
}

#[test]
fn perspective_accepts_extreme_corners() {
    let img = image(2, 2);
    let big = 1 << 30;
    let q = Quad { a: p(0, big), b: p(0, 0), c: p(big, 0), d: p(big, big) };
    let out = img.perspective(q, 2, 2);
    assert_eq!(out.data, [1u8, 1, 2, 255].repeat(4));
    let q = Quad {
        a: p(i32::MIN, -1),
        b: p(i32::MIN, i32::MIN),
        c: p(-1, i32::MIN),
        d: p(-1, -1),
    };
    let out = img.perspective(q, 3, 1);
    assert_eq!(out.data, [0u8, 0, 0, 255].repeat(3));
}

#[test]
fn perspective_of_full_range_quad() {
    let img = image(4, 4);
    // corners at the ends of the i32 range: the centre sample lies far
    // outside the image and clamps to an edge pixel
    let q = Quad {
        a: p(i32::MIN, i32::MAX),
        b: p(i32::MIN, i32::MIN),
        c: p(i32::MAX, i32::MIN),
        d: p(i32::MAX, i32::MAX),
    };
    let out = img.perspective(q, 2, 2);
    assert_eq!(out.width, 2);
    assert_eq!(out.data.len(), 16);
    assert_eq!(&out.data[0..4], &[0u8, 0, 0, 255]);
    assert_eq!(&out.data[12..16], &[3u8, 3, 6, 255]);
}
