use samp_vanilla_assets::dialog::{
    average_rgb, average_segment_rgb, dialog_tag_budget, opaque_pixel_count, reconstruct_boundaries,
    render_pixels, row_tag_cap, sample_argb, DialogDecodeConfig,
};

const RED: i32 = 0xFFFF0000u32 as i32;
const GREEN: i32 = 0xFF00FF00u32 as i32;
const BLUE: i32 = 0xFF0000FFu32 as i32;

#[test]
fn average_rgb_rounds_half_up() {
    assert_eq!(average_rgb(30, 60, 91, 2), 0x0F1E2E);
    assert_eq!(average_rgb(255, 0, 128, 1), 0xFF0080);
}

#[test]
fn segment_average_ignores_clear_pixels() {
    let segment = [0xFF0A1420u32 as i32, 0x10FFFFFF, 0xFF141E2Au32 as i32];
    assert_eq!(average_segment_rgb(&segment), Some(0x0F1925));
}

#[test]
fn segment_average_of_clear_pixels_is_none() {
    assert_eq!(average_segment_rgb(&[0x7FFFFFFF, 0]), None);
    assert_eq!(average_segment_rgb(&[]), None);
}

#[test]
fn opaque_pixels_are_counted_from_alpha_128() {
    assert_eq!(opaque_pixel_count(&[0x80000000u32 as i32, 0x7F000000, 0]), 1);
}

#[test]
fn row_cap_is_limited_by_room_and_opaque_pixels() {
    assert_eq!(row_tag_cap(&[RED, RED, 0]), 2);
    let wide = vec![RED; 120];
    assert_eq!(row_tag_cap(&wide), 1);
    let too_wide = vec![RED; 200];
    assert_eq!(row_tag_cap(&too_wide), 0);
}

#[test]
fn tag_budget_is_spare_body_room_in_tags() {
    assert_eq!(dialog_tag_budget(&[vec![0; 3], vec![0; 1]]), 511);
    assert_eq!(dialog_tag_budget(&[vec![0; 5000]]), 0);
}

#[test]
fn boundaries_are_walked_back_and_sorted() {
    let split = vec![vec![0, 0, 0, 0], vec![0, 0, 0, 0], vec![0, 0, 1, 1], vec![0, 0, 0, 2]];
    assert_eq!(reconstruct_boundaries(&split, 3, 3), vec![1, 2]);
    assert!(reconstruct_boundaries(&split, 1, 3).is_empty());
}

#[test]
fn render_whole_rows_as_one_segment_each() {
    let pixels = vec![vec![RED, RED, 0], vec![BLUE]];
    let rendered = render_pixels(&pixels, &[vec![], vec![]]);
    assert_eq!(rendered.body, "{FF0000}@@ \n{0000FF}@");
    assert_eq!(rendered.color_tags, 2);
    assert_eq!(rendered.max_row_len, 11);
}

#[test]
fn render_segments_with_their_own_colour() {
    let pixels = vec![vec![RED, GREEN]];
    let rendered = render_pixels(&pixels, &[vec![1]]);
    assert_eq!(rendered.body, "{FF0000}@{00FF00}@");
    assert_eq!(rendered.color_tags, 2);
    assert_eq!(rendered.max_row_len, 18);
}

#[test]
fn render_repeats_no_tag_for_the_same_colour() {
    let pixels = vec![vec![RED], vec![RED]];
    let rendered = render_pixels(&pixels, &[vec![], vec![]]);
    assert_eq!(rendered.body, "{FF0000}@\n@");
    assert_eq!(rendered.color_tags, 1);
    assert_eq!(rendered.max_row_len, 9);
}

#[test]
fn sample_picks_nearest_source_pixels() {
    // Pixel (x, y) of a 2x2 canvas is (x, y, 0, 255).
    let mut canvas = Vec::new();
    for y in 0..2u8 {
        for x in 0..2u8 {
            canvas.extend_from_slice(&[x, y, 0, 255]);
        }
    }
    let pixels = sample_argb(&canvas, 2, 2, 2, 2);
    let at = |x: u32, y: u32| (0xFF00_0000u32 | (x << 16) | (y << 8)) as i32;
    assert_eq!(pixels, vec![vec![at(0, 0), at(1, 0)], vec![at(0, 1), at(1, 1)]]);
}

#[test]
fn dialog_decode_dimensions_are_the_grid() {
    let config = DialogDecodeConfig { cols: 40, rows: 20 };
    assert_eq!(config.decode_dimensions(), (40, 20));
}

#[test]
fn rationed_boundaries_keep_the_body_and_its_lines_within_limits() {
    let pixels: Vec<Vec<i32>> = (0..30)
        .map(|r| (0..100).map(|c| if (r + c) % 2 == 0 { RED } else { GREEN }).collect())
        .collect();
    let boundaries: Vec<Vec<usize>> = (0..30).map(|_| vec![50]).collect();
    assert!(60 <= dialog_tag_budget(&pixels));
    assert!(2 <= row_tag_cap(&pixels[0]));
    let rendered = render_pixels(&pixels, &boundaries);
    assert_eq!(rendered.body.len(), 30 * 100 + 29 + 8 * rendered.color_tags);
    assert!(rendered.body.len() <= 4096);
    assert!(rendered.max_row_len <= 128);
    assert_eq!(rendered.body.lines().count(), 30);
}
