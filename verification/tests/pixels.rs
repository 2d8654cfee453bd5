use docscan::names::{sign_color, text_equals, Filter};
use docscan::pixels::{grayscale_image, set_image_data, threshold_to_bw, RGB, RGBA};

#[test]
fn grayscale_averages_colour_and_keeps_alpha() {
    let mut px = vec![10u8, 20, 30, 40, 255, 0, 0, 7];
    grayscale_image(&mut px);
    assert_eq!(px, vec![20u8, 20, 20, 40, 85, 85, 85, 7]);
}

#[test]
fn grayscale_handles_trailing_colour_triple() {
    let mut px = vec![1u8, 2, 3, 4, 5, 6, 9];
    grayscale_image(&mut px);
    assert_eq!(px, vec![2u8, 2, 2, 4, 6, 6, 6]);
}

#[test]
fn grayscale_rounds_down() {
    let mut px = vec![1u8, 1, 0, 255];
    grayscale_image(&mut px);
    assert_eq!(px, vec![0u8, 0, 0, 255]);
}

#[test]
fn grayscale_twice_is_grayscale_once() {
    let mut once = vec![13u8, 200, 77, 1, 0, 0, 255, 128, 90, 91, 92, 93];
    grayscale_image(&mut once);
    let mut twice = once.clone();
    grayscale_image(&mut twice);
    assert_eq!(once, twice);
}

#[test]
fn grayscale_of_empty_buffer() {
    let mut px: Vec<u8> = Vec::new();
    grayscale_image(&mut px);
    assert!(px.is_empty());
}

fn white() -> RGB {
    RGB { r: 255, g: 255, b: 255 }
}

#[test]
fn keying_selects_near_colours() {
    let sel = RGBA { r: 255, g: 255, b: 255, a: 255 };
    let unsel = RGBA { r: 0, g: 0, b: 255, a: 255 };
    let mut px = vec![250u8, 250, 250, 9, 0, 0, 0, 9];
    set_image_data(&mut px, white(), sel, unsel, 72);
    assert_eq!(px, vec![255u8, 255, 255, 255, 0, 0, 255, 255]);
}

#[test]
fn keying_boundary_is_inclusive() {
    let sel = RGBA { r: 1, g: 2, b: 3, a: 4 };
    let unsel = RGBA { r: 5, g: 6, b: 7, a: 8 };
    // distance 30 = 3 * 10: still selected
    let mut px = vec![245u8, 245, 245, 0];
    set_image_data(&mut px, white(), sel, unsel, 10);
    assert_eq!(px, vec![1u8, 2, 3, 4]);
    // distance 31: not selected
    let mut px = vec![244u8, 245, 245, 0];
    set_image_data(&mut px, white(), sel, unsel, 10);
    assert_eq!(px, vec![5u8, 6, 7, 8]);
}

#[test]
fn keying_mask_alpha_is_mean_distance() {
    let sel = RGBA { r: 255, g: 255, b: 255, a: 0 };
    let unsel = RGBA { r: 0, g: 0, b: 0, a: 255 };
    let mut px = vec![10u8, 20, 30, 99, 255, 255, 255, 99];
    set_image_data(&mut px, white(), sel, unsel, 10);
    assert_eq!(px, vec![0u8, 0, 0, 235, 255, 255, 255, 0]);
}

#[test]
fn keying_without_mask_keeps_unselected_alpha() {
    // selected and unselected are not opposite colours: no mask
    let sel = RGBA { r: 255, g: 255, b: 255, a: 0 };
    let unsel = RGBA { r: 255, g: 0, b: 0, a: 200 };
    let mut px = vec![0u8, 0, 0, 1];
    set_image_data(&mut px, white(), sel, unsel, 10);
    assert_eq!(px, vec![255u8, 0, 0, 200]);
}

#[test]
fn threshold_splits_at_luma_190() {
    let normalized = vec![200u8, 200, 200, 0, 100, 100, 100, 0, 190, 190, 190, 0, 189, 189, 189, 0];
    let src = vec![0u8, 0, 0, 11, 0, 0, 0, 22, 0, 0, 0, 33, 0, 0, 0, 44];
    let mut dst = vec![7u8; 20];
    threshold_to_bw(&normalized, &src, &mut dst);
    assert_eq!(
        dst,
        vec![255u8, 255, 255, 11, 0, 0, 0, 22, 255, 255, 255, 33, 0, 0, 0, 44, 7, 7, 7, 7]
    );
}

#[test]
fn threshold_weights_green_most() {
    // luma of (0, 255, 0) is 149, of (255, 255, 0) is 226
    let normalized = vec![0u8, 255, 0, 0, 255, 255, 0, 0];
    let src = vec![0u8, 0, 0, 1, 0, 0, 0, 2];
    let mut dst = vec![0u8; 8];
    threshold_to_bw(&normalized, &src, &mut dst);
    assert_eq!(dst, vec![0u8, 0, 0, 1, 255, 255, 255, 2]);
}

#[test]
fn filter_names() {
    assert_eq!(Filter::from_name("original"), Some(Filter::Original));
    assert_eq!(Filter::from_name("magic"), Some(Filter::Magic));
    assert_eq!(Filter::from_name("bw"), Some(Filter::Bw));
    assert_eq!(Filter::from_name("gray"), Some(Filter::Gray));
    assert_eq!(Filter::from_name("photo"), Some(Filter::Photo));
    assert_eq!(Filter::from_name("sign"), Some(Filter::Sign));
    assert_eq!(Filter::from_name("Sign"), None);
    assert_eq!(Filter::from_name(""), None);
    assert_eq!(Filter::from_name("grayscale"), None);
}

#[test]
fn sign_colours() {
    assert_eq!(sign_color(Some("red")), RGBA { r: 255, g: 0, b: 0, a: 255 });
    assert_eq!(sign_color(Some("green")), RGBA { r: 0, g: 255, b: 0, a: 255 });
    assert_eq!(sign_color(Some("blue")), RGBA { r: 0, g: 0, b: 255, a: 255 });
    assert_eq!(sign_color(Some("purple")), RGBA { r: 255, g: 0, b: 255, a: 255 });
    assert_eq!(sign_color(Some("black")), RGBA { r: 0, g: 0, b: 0, a: 255 });
    assert_eq!(sign_color(None), RGBA { r: 0, g: 0, b: 0, a: 255 });
}

#[test]
fn text_comparison() {
    assert!(text_equals("abc", "abc"));
    assert!(!text_equals("abc", "abd"));
    assert!(!text_equals("abc", "ab"));
    assert!(text_equals("", ""));
    assert!(text_equals("ümlaut", "ümlaut"));
}

#[test]
fn keying_paints_one_of_two_colours() {
    let sel = RGBA { r: 250, g: 240, b: 230, a: 220 };
    let unsel = RGBA { r: 1, g: 2, b: 3, a: 4 };
    let mut px = Vec::new();
    for v in 0..=255u8 {
        px.extend_from_slice(&[v, 255 - v, v / 2, 17]);
    }
    set_image_data(&mut px, white(), sel, unsel, 40);
    for chunk in px.chunks(4) {
        assert!(chunk == [250, 240, 230, 220] || chunk[..3] == [1, 2, 3]);
    }
}
