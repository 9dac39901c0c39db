use samp_vanilla_assets::pixel::{downsample_to_argb, extract_region, quantize_pixel, quantize_pixels};

#[test]
fn quantize_pixel_rounds_channels_down_and_keeps_alpha() {
    let pixel = 0x807F4110u32 as i32;
    assert_eq!(quantize_pixel(pixel, 16), 0x80704010u32 as i32);
}

#[test]
fn quantize_pixel_with_negative_step_matches_positive() {
    let pixel = 0xFF7F4110u32 as i32;
    assert_eq!(quantize_pixel(pixel, -16), quantize_pixel(pixel, 16));
}

#[test]
fn quantize_pixels_maps_every_pixel() {
    let grid = vec![vec![0xFF123456u32 as i32, 0x00FFFFFF], vec![]];
    let out = quantize_pixels(&grid, 32);
    assert_eq!(out, vec![vec![0xFF002040u32 as i32, 0x00E0E0E0], vec![]]);
}

#[test]
fn extract_region_copies_rows_of_the_rectangle() {
    let canvas: Vec<u8> = (0..24).map(|i| i as u8).collect();
    assert_eq!(extract_region(&canvas, 3, 1, 1, 2, 1), (16..24).map(|i| i as u8).collect::<Vec<u8>>());
    assert_eq!(extract_region(&canvas, 3, 0, 0, 1, 2), vec![0, 1, 2, 3, 12, 13, 14, 15]);
    assert!(extract_region(&canvas, 3, 0, 0, 0, 0).is_empty());
}

#[test]
fn downsample_maps_rows_to_x_and_columns_to_flipped_y() {
    // Pixel (x, y) of a 2x2 canvas is (10 * x + y, 1, 2, 255).
    let mut canvas = Vec::new();
    for y in 0..2u8 {
        for x in 0..2u8 {
            canvas.extend_from_slice(&[10 * x + y, 1, 2, 255]);
        }
    }
    let pixels = downsample_to_argb(&canvas, 2, 2, 2, 2);
    let expect = |x: u32, y: u32| (0xFF00_0000u32 | ((10 * x + y) << 16) | (1 << 8) | 2) as i32;
    assert_eq!(pixels, vec![vec![expect(0, 1), expect(0, 0)], vec![expect(1, 1), expect(1, 0)]]);
}
