use std::time::Duration;

use samp_vanilla_assets::textdraw::{
    build_frame, compute_colour_levels, layer_count, textdraw_layout, TextDrawDecodeConfig,
};

#[test]
fn colour_levels_for_default_grid_and_budget() {
    // 803 / 39 = 20 rows per chunk, 3 chunks, 255 / 3 = 85 layers each.
    assert_eq!(compute_colour_levels(36, 54, 256), 21);
}

#[test]
fn colour_levels_never_below_one() {
    assert_eq!(compute_colour_levels(36, 54, 0), 1);
    assert_eq!(compute_colour_levels(800, 10, 3), 1);
}

#[test]
fn layer_count_is_white_plus_four_channels() {
    assert_eq!(layer_count(21), 85);
    assert_eq!(layer_count(0), 1);
}

#[test]
fn layout_matches_frame_shape() {
    assert_eq!(textdraw_layout(36, 54, 256), (20, 3, 85));
    assert_eq!(textdraw_layout(36, 54, 0), (20, 3, 1));
}

#[test]
fn red_and_clear_pixel_chunk_layers() {
    // One row of two pixels: opaque pure red, then fully transparent.
    let canvas = vec![255u8, 0, 0, 255, 0, 0, 0, 0];
    let (frame, delay) = build_frame(&canvas, Duration::from_millis(40), 2, 1, 7);
    assert_eq!(delay, Duration::from_millis(40));
    assert_eq!(frame.pool_size, 6);
    assert_eq!(frame.chunk_layers.len(), 1);
    let layers: Vec<(u32, &str)> = frame.chunk_layers[0].iter().map(|l| (l.rgba, l.text.as_str())).collect();
    assert_eq!(
        layers,
        vec![
            (0xFFFFFFFF, "I."),
            (0x00FF00FF, ".."),
            (0x0000FFFF, ".."),
            (0xFF0000FF, "I."),
            (0x000000FF, ".."),
            (0x00000000, ".."),
        ]
    );
}

#[test]
fn chunk_texts_join_rows_with_breaks() {
    // Two rows of one opaque black pixel each, one chunk.
    let canvas = vec![0u8, 0, 0, 255, 0, 0, 0, 255];
    let (frame, _) = build_frame(&canvas, Duration::from_millis(1), 1, 2, 2);
    assert_eq!(frame.pool_size, 1);
    assert_eq!(frame.chunk_layers[0].len(), 1 + 4);
    assert_eq!(frame.chunk_layers[0][0].text, "I~n~I");
    // The darkness channel lights every bit for black.
    assert_eq!(frame.chunk_layers[0][4].text, "I~n~I");
    assert_eq!(frame.chunk_layers[0][1].text, ".~n~.");
}

#[test]
fn many_rows_are_cut_into_chunks() {
    let canvas = vec![0u8; 36 * 54 * 4];
    let (frame, _) = build_frame(&canvas, Duration::from_millis(1), 36, 54, 256);
    assert_eq!(frame.chunk_layers.len(), 3);
    for chunk in &frame.chunk_layers {
        assert_eq!(chunk.len(), 85);
        assert!(chunk.iter().all(|l| l.text.len() <= 800));
    }
    // The last chunk holds the 14 remaining rows.
    assert_eq!(frame.chunk_layers[2][0].text.matches("~n~").count(), 13);
}

#[test]
fn decode_dimensions_are_the_grid() {
    let config = TextDrawDecodeConfig { cols: 36, rows: 54, budget: 256 };
    assert_eq!(config.decode_dimensions(), (36, 54));
}
