use docscan::blur::{blur_rgba, fast_box_blur_rgba, sharpen_response};
use docscan::borders::replicate_borders;
use docscan::dilate::fast_dilate_rgba;

/// A `w` by `h` raster whose red channel is `red`, green is `10 * x`, blue
/// `y`, alpha `100 + x`.
fn raster(w: usize, h: usize, red: &[u8]) -> Vec<u8> {
    let mut v = Vec::new();
    for y in 0..h {
        for x in 0..w {
            v.push(red[y * w + x]);
            v.push((10 * x) as u8);
            v.push(y as u8);
            v.push((100 + x) as u8);
        }
    }
    v
}

fn channel(v: &[u8], c: usize) -> Vec<u8> {
    v.iter().skip(c).step_by(4).copied().collect()
}

#[test]
fn box_blur_slides_with_edge_replication() {
    let src = raster(3, 1, &[0, 30, 60]);
    let mut dst = vec![0u8; 12];
    fast_box_blur_rgba(&src, &mut dst, 3, 1, 1);
    assert_eq!(channel(&dst, 0), vec![10u8, 30, 50]);
    assert_eq!(channel(&dst, 1), vec![3u8, 10, 16]);
    assert_eq!(channel(&dst, 3), vec![100u8, 101, 102]);
}

#[test]
fn box_blur_is_separable() {
    // 2 x 2, radius 1: rows first, then columns
    let src = raster(2, 2, &[0, 90, 30, 120]);
    let mut dst = vec![0u8; 16];
    fast_box_blur_rgba(&src, &mut dst, 2, 2, 1);
    // rows: [30, 60] and [60, 90]; columns: (2*30+60)/3 = 40, (30+2*60)/3 = 50, ...
    assert_eq!(channel(&dst, 0), vec![40u8, 70, 50, 80]);
}

#[test]
fn box_blur_radius_larger_than_image() {
    let src = raster(2, 1, &[0, 255]);
    let mut dst = vec![0u8; 8];
    fast_box_blur_rgba(&src, &mut dst, 2, 1, 12);
    // 13 samples left of centre read 0 or 255 by replication
    assert_eq!(channel(&dst, 0), vec![(12 * 255 / 25) as u8, (13 * 255 / 25) as u8]);
}

#[test]
fn box_blur_keeps_uniform_image_and_tail() {
    let src = raster(3, 2, &[77; 6]);
    let mut dst = vec![5u8; 30];
    fast_box_blur_rgba(&src, &mut dst, 3, 2, 2);
    assert_eq!(channel(&dst[..24], 0), vec![77u8; 6]);
    assert_eq!(&dst[24..], &[5u8; 6]);
}

#[test]
fn box_blur_of_empty_raster() {
    let src: Vec<u8> = Vec::new();
    let mut dst: Vec<u8> = vec![1, 2];
    fast_box_blur_rgba(&src, &mut dst, 0, 0, 3);
    assert_eq!(dst, vec![1u8, 2]);
}

#[test]
fn dilation_takes_window_maximum() {
    let src = raster(3, 1, &[0, 30, 60]);
    let mut dst = vec![0u8; 12];
    fast_dilate_rgba(&src, &mut dst, 3, 1, 1);
    assert_eq!(channel(&dst, 0), vec![30u8, 60, 60]);
    assert_eq!(channel(&dst, 1), vec![10u8, 20, 20]);
    assert_eq!(channel(&dst, 3), vec![100u8, 101, 102]);
}

#[test]
fn dilation_is_a_square_window() {
    let src = raster(3, 3, &[0, 0, 0, 0, 0, 0, 0, 0, 200]);
    let mut dst = vec![0u8; 36];
    fast_dilate_rgba(&src, &mut dst, 3, 3, 1);
    assert_eq!(channel(&dst, 0), vec![0u8, 0, 0, 0, 200, 200, 0, 200, 200]);
}

#[test]
fn dilation_never_darkens() {
    let red = [5u8, 250, 3, 90, 0, 17];
    let src = raster(3, 2, &red);
    let mut dst = vec![0u8; 24];
    fast_dilate_rgba(&src, &mut dst, 3, 2, 1);
    for (before, after) in channel(&src, 0).iter().zip(channel(&dst, 0).iter()) {
        assert!(after >= before);
    }
}

#[test]
fn dilation_radius_zero_is_identity() {
    let src = raster(2, 2, &[9, 8, 7, 6]);
    let mut dst = vec![0u8; 16];
    fast_dilate_rgba(&src, &mut dst, 2, 2, 0);
    assert_eq!(dst, src);
}

#[test]
fn three_by_three_blur_shrinks_at_borders() {
    let src = raster(3, 1, &[0, 30, 60]);
    let mut dst = vec![0u8; 12];
    blur_rgba(&src, &mut dst, 3, 1);
    assert_eq!(channel(&dst, 0), vec![15u8, 30, 45]);
    assert_eq!(channel(&dst, 3), vec![100u8, 101, 102]);
}

#[test]
fn three_by_three_blur_centre_of_square() {
    let src = raster(3, 3, &[0, 0, 0, 0, 90, 0, 0, 0, 0]);
    let mut dst = vec![0u8; 36];
    blur_rgba(&src, &mut dst, 3, 3);
    // corners average 4 pixels, edges 6, the centre 9
    assert_eq!(channel(&dst, 0), vec![22u8, 15, 22, 15, 10, 15, 22, 15, 22]);
}

#[test]
fn three_by_three_blur_keeps_uniform_image() {
    let src = raster(4, 3, &[123; 12]);
    let mut dst = vec![0u8; 48];
    blur_rgba(&src, &mut dst, 4, 3);
    assert_eq!(channel(&dst, 0), vec![123u8; 12]);
}

#[test]
fn sharpen_kernel_response() {
    let src = raster(3, 3, &[0, 10, 0, 20, 100, 30, 0, 40, 0]);
    assert_eq!(sharpen_response(&src, 3, 3, 1, 1, 0), 500 - 10 - 20 - 30 - 40);
    // blue is the row number: 5 * 1 - 1 - 1 - 0 - 2
    assert_eq!(sharpen_response(&src, 3, 3, 1, 1, 2), 1);
}

#[test]
fn sharpen_kernel_can_go_negative() {
    let src = raster(3, 3, &[255, 255, 255, 255, 0, 255, 255, 255, 255]);
    assert_eq!(sharpen_response(&src, 3, 3, 1, 1, 0), -1020);
}

#[test]
fn borders_copy_nearest_inner_cell() {
    let w = 6;
    let h = 5;
    let mut data: Vec<u32> = (0..(w * h) as u32).collect();
    replicate_borders(&mut data, w, h);
    let expect = |x: usize, y: usize| -> u32 {
        let cx = x.clamp(2, w - 3);
        let cy = y.clamp(2, h - 3);
        (cy * w + cx) as u32
    };
    for y in 0..h {
        for x in 0..w {
            assert_eq!(data[y * w + x], expect(x, y), "cell ({}, {})", x, y);
        }
    }
    assert_eq!(data[0], 14);
    assert_eq!(data[w * h - 1], 15);
}

#[test]
fn borders_keep_inner_cells() {
    let w = 7;
    let h = 6;
    let original: Vec<i64> = (0..(w * h) as i64).map(|v| v * 3 - 40).collect();
    let mut data = original.clone();
    replicate_borders(&mut data, w, h);
    for y in 2..h - 2 {
        for x in 2..w - 2 {
            assert_eq!(data[y * w + x], original[y * w + x]);
        }
    }
}

#[test]
fn box_blur_radius_zero_is_identity() {
    let src = raster(3, 2, &[1, 50, 200, 3, 99, 255]);
    let mut dst = vec![0u8; 24];
    fast_box_blur_rgba(&src, &mut dst, 3, 2, 0);
    assert_eq!(dst, src);
}

#[test]
fn dilation_is_monotone() {
    let low = raster(3, 2, &[1, 2, 3, 4, 5, 6]);
    let high = raster(3, 2, &[1, 9, 3, 4, 5, 7]);
    let mut dl = vec![0u8; 24];
    let mut dh = vec![0u8; 24];
    fast_dilate_rgba(&low, &mut dl, 3, 2, 1);
    fast_dilate_rgba(&high, &mut dh, 3, 2, 1);
    for (a, b) in channel(&dl, 0).iter().zip(channel(&dh, 0).iter()) {
        assert!(a <= b);
    }
    assert_eq!(channel(&dl, 0), vec![5u8, 6, 6, 5, 6, 6]);
    assert_eq!(channel(&dh, 0), vec![9u8, 9, 9, 9, 9, 9]);
}
