use std::time::Duration;

use samp_vanilla_assets::frame3d::{
    build_color_embedded_bands, build_frame3d, pack_bands, row_costs, screen3d_canvas_size,
};

fn red() -> i32 {
    0xFF110000u32 as i32
}

#[test]
fn row_costs_count_tags_pixels_and_blanks() {
    let grid = vec![vec![red(), red(), 0], vec![red(), 0xFF220000u32 as i32]];
    assert_eq!(row_costs(&grid), vec![11, 18]);
}

#[test]
fn row_costs_of_empty_row_is_zero() {
    assert_eq!(row_costs(&[vec![]]), vec![0]);
}

#[test]
fn pack_bands_keeps_everything_in_one_band_when_it_fits() {
    assert_eq!(pack_bands(&[5, 5, 5]), vec![0..3]);
}

#[test]
fn pack_bands_splits_when_budget_exceeded() {
    assert_eq!(pack_bands(&[2000, 100, 50]), vec![0..1, 1..3]);
}

#[test]
fn pack_bands_of_nothing_is_empty() {
    assert!(pack_bands(&[]).is_empty());
}

#[test]
fn pack_bands_keeps_an_oversized_row_alone() {
    assert_eq!(pack_bands(&[3000, 3000]), vec![0..1, 1..2]);
}

#[test]
fn band_text_has_tags_glyphs_and_blanks() {
    let grid = vec![vec![red(), red(), 0], vec![0xFF00FF00u32 as i32]];
    assert_eq!(build_color_embedded_bands(&grid), vec!["{110000}nn \n{00FF00}n".to_string()]);
}

#[test]
fn band_texts_of_two_bands_keep_line_breaks() {
    // 30 rows of 72 opaque pixels of alternating colours cost 72 * 9 = 648
    // each; the budget of 2048 - 29 takes three rows per band.
    let row: Vec<i32> = (0..72).map(|i| if i % 2 == 0 { red() } else { 0xFF00FF00u32 as i32 }).collect();
    let grid = vec![row; 30];
    let texts = build_color_embedded_bands(&grid);
    assert_eq!(texts.len(), 10);
    for text in &texts {
        assert_eq!(text.matches('\n').count(), 29);
        assert_eq!(text.matches('n').count(), 3 * 72);
    }
}

#[test]
fn transparent_tile_renders_at_finest_level_in_five_bands() {
    let canvas = vec![0u8; 240 * 160 * 4];
    let (frame, delay) = build_frame3d(&canvas, Duration::from_millis(66), 1, 1);
    assert_eq!(delay, Duration::from_millis(66));
    assert_eq!(frame.len(), 1);
    let layers = &frame[0].layers;
    assert_eq!(layers.len(), 5);
    for (k, layer) in layers.iter().enumerate() {
        assert_eq!(layer.material_index, k as i32);
        assert_eq!(layer.font_size, 5);
        assert_eq!(layer.text.matches('\n').count(), 107);
    }
    assert_eq!(layers[0].text.len(), 107 + 26 * 72);
    assert_eq!(layers[4].text.len(), 107 + 4 * 72);
}

#[test]
fn frame_has_one_material_per_tile() {
    let canvas = vec![0u8; 2 * 240 * 160 * 4];
    let (frame, _) = build_frame3d(&canvas, Duration::from_millis(10), 2, 1);
    assert_eq!(frame.len(), 2);
    assert!(frame.iter().all(|m| m.layers.len() <= 16));
}

#[test]
fn canvas_size_scales_with_tiles() {
    assert_eq!(screen3d_canvas_size(2, 3), (480, 480));
}

#[test]
fn every_band_has_one_line_per_row_and_draws_only_its_rows() {
    let row: Vec<i32> = (0..72).map(|i| if i % 2 == 0 { red() } else { 0xFF00FF00u32 as i32 }).collect();
    let grid = vec![row; 30];
    let texts = build_color_embedded_bands(&grid);
    for (k, text) in texts.iter().enumerate() {
        let lines: Vec<&str> = text.split('\n').collect();
        assert_eq!(lines.len(), 30);
        for (i, line) in lines.iter().enumerate() {
            if i / 3 == k {
                assert_eq!(line.len(), 72 * 9);
                assert!(line.starts_with("{110000}n{00FF00}n"));
            } else {
                assert!(line.is_empty());
            }
        }
        assert!(text.len() <= 2048);
    }
}
