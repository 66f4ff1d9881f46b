use raw::frame::{
    apply_mask, calc_average_brightness, calc_bg_img_size, calc_content_height, frame_layout,
    overlay_color, try_frame_layout, FrameLayout, CAPTION_HEIGHT, SHADOW_OFFSET,
};

#[test]
fn background_keeps_photo_size() {
    assert_eq!(calc_bg_img_size(600, 800, 600, 800, 100, Some(600)), (600, 800));
}

#[test]
fn background_grows_to_occupancy() {
    // 80% occupancy: the width becomes 800 / 0.8 and the height follows.
    assert_eq!(calc_bg_img_size(600, 800, 600, 800, 80, Some(600)), (750, 1000));
    // A requested height too small for the photo.
    assert_eq!(calc_bg_img_size(600, 800, 600, 800, 100, Some(300)), (600, 800));
    assert_eq!(calc_bg_img_size(3, 7, 3, 7, 100, Some(0)), (3, 7));
}

#[test]
fn background_height_from_larger_of_heights() {
    assert_eq!(calc_bg_img_size(600, 800, 900, 800, 100, None), (900, 1200));
    assert_eq!(calc_bg_img_size(600, 800, 300, 800, 100, None), (600, 800));
}

#[test]
fn background_width_rounds_up() {
    let (h, w) = calc_bg_img_size(600, 800, 600, 800, 100, Some(712));
    assert_eq!((h, w), (712, 950));
    // Width at least the photo's share, aspect ratio within a pixel.
    assert!(w as u64 * 100 >= 800 * 100);
    assert!((w as i64 * 600 - h as i64 * 800).abs() < 800);
}

#[test]
fn content_height_with_caption() {
    // Top margin 5% of 600 = 30; margins 0.75 * 60 + 2.7% of 600 = 61.2 -> 62.
    assert_eq!(calc_content_height(600, 600, Some(5), 0, true, Some(50)), (712, 30));
}

#[test]
fn content_height_without_caption() {
    assert_eq!(calc_content_height(600, 600, Some(5), 0, true, None), (660, 30));
    assert_eq!(calc_content_height(600, 600, Some(5), 10, false, None), (720, 60));
    assert_eq!(calc_content_height(600, 600, None, 0, true, None), (600, 0));
    assert_eq!(calc_content_height(1000, 600, Some(5), 4, true, None), (680, 40));
}

#[test]
fn layout_of_800_by_600() {
    let l = frame_layout(800, 600, 400, 50);
    assert_eq!(
        l,
        FrameLayout {
            bg_w: 950,
            bg_h: 712,
            content_x: 75,
            content_y: 30,
            text_x: 275,
            text_y: 646,
            shadow_x: 65,
            shadow_y: 20,
            shadow_w: 820,
            shadow_h: 620,
        }
    );
    // Margins and the shadow fit around the photo on every side.
    assert!(l.content_x >= SHADOW_OFFSET && l.bg_w - l.content_x - 800 >= SHADOW_OFFSET);
    assert!(l.content_y >= SHADOW_OFFSET && l.bg_h - l.content_y - 600 >= CAPTION_HEIGHT);
}

#[test]
fn wide_caption_is_centred() {
    let l = frame_layout(800, 600, 1001, 60);
    assert_eq!(l.text_x, -26);
    assert_eq!(l.text_y, 641);
}

#[test]
fn overlay_tiers() {
    assert_eq!(overlay_color(0), (180, 180, 180, 51));
    assert_eq!(overlay_color(14), (180, 180, 180, 51));
    assert_eq!(overlay_color(15), (158, 158, 158, 51));
    assert_eq!(overlay_color(19), (158, 158, 158, 51));
    assert_eq!(overlay_color(20), (128, 128, 128, 51));
    assert_eq!(overlay_color(39), (128, 128, 128, 51));
    assert_eq!(overlay_color(40), (0, 0, 0, 51));
    assert_eq!(overlay_color(255), (0, 0, 0, 51));
}

#[test]
fn average_brightness() {
    let img = vec![30u8, 60, 90, 255, 0, 0, 3, 0];
    assert_eq!(calc_average_brightness(&img), 30);
    assert_eq!(calc_average_brightness(&vec![255u8; 400]), 255);
    assert_eq!(calc_average_brightness(&vec![1u8, 1, 0, 9]), 0);
}

#[test]
fn mask_clears_transparent_pixels() {
    let img = vec![1u8, 2, 3, 4, 5, 6, 7, 8];
    let mask = vec![9u8, 9, 9, 0, 0, 0, 0, 1];
    assert_eq!(apply_mask(&img, &mask), vec![0u8, 0, 0, 0, 5, 6, 7, 8]);
    assert!(apply_mask(&Vec::new(), &Vec::new()).is_empty());
}

#[test]
fn checked_layout() {
    assert_eq!(try_frame_layout(800, 600, 400, 50), Some(frame_layout(800, 600, 400, 50)));
    assert_eq!(try_frame_layout(0, 600, 400, 50), None);
    assert_eq!(try_frame_layout(800, 0, 400, 50), None);
    assert_eq!(try_frame_layout(u32::MAX, 1, 10, 10), None);
    assert_eq!(try_frame_layout(1, 4_000_000_000, 10, 10), None);
}
