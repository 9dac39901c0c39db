use samp_vanilla_assets::amx_frame::{native_params, returned_ids};
use samp_vanilla_assets::commands::{clip_audio_url, clip_relay_path, is_youtube_url, push_decimal, text_contains};
use samp_vanilla_assets::config::{AudioConfig, ScreenModelConfig};
use samp_vanilla_assets::placement::{grid_text, tile_count_arg};
use samp_vanilla_assets::text::{chars_of, push_color_tag, push_str};
use samp_vanilla_assets::video::{letterbox_filter, FrameOutcome, StreamTally};

#[test]
fn youtube_links_are_live_sources() {
    assert!(is_youtube_url("https://www.youtube.com/watch?v=abc"));
    assert!(is_youtube_url("https://youtu.be/abc"));
    assert!(!is_youtube_url("http://example.com/clip.mp4"));
    assert!(!is_youtube_url("youtube"));
}

#[test]
fn text_search_finds_any_occurrence() {
    assert!(text_contains("abcabd", "abd"));
    assert!(text_contains("abc", ""));
    assert!(!text_contains("ab", "abc"));
    assert!(!text_contains("abcab", "bb"));
}

#[test]
fn clip_names_and_urls() {
    assert_eq!(clip_relay_path(42), "clip_42.mp3");
    assert_eq!(clip_relay_path(0), "clip_0.mp3");
    assert_eq!(clip_audio_url("http://127.0.0.1:7878", "clip_0.mp3"), "http://127.0.0.1:7878/clip_0.mp3");
}

#[test]
fn decimal_digits_are_written_in_order() {
    let mut text = String::from("n=");
    push_decimal(&mut text, 1234567);
    assert_eq!(text, "n=1234567");
    let mut text = String::new();
    push_decimal(&mut text, usize::MAX);
    assert_eq!(text, usize::MAX.to_string());
}

#[test]
fn letterbox_filter_names_the_size_twice() {
    assert_eq!(
        letterbox_filter(240, 160),
        "scale=240:160:force_original_aspect_ratio=decrease,format=rgba,pad=240:160:(ow-iw)/2:(oh-ih)/2:color=black@0.0"
    );
}

#[test]
fn stream_tally_counts_until_the_consumer_leaves() {
    let mut tally = StreamTally::new();
    assert!(tally.record(&FrameOutcome::Sent));
    assert!(tally.record(&FrameOutcome::Dropped));
    assert!(tally.record(&FrameOutcome::Sent));
    assert_eq!((tally.decoded, tally.sent, tally.dropped, tally.sent_any), (3, 2, 1, true));
    tally.reset_window();
    assert_eq!((tally.decoded, tally.sent, tally.dropped, tally.sent_any), (0, 0, 0, true));
    assert!(!tally.record(&FrameOutcome::Disconnected));
    assert_eq!(tally.decoded, 1);
}

#[test]
fn placeholder_grid_has_lines_every_sixth_cell() {
    let text = grid_text();
    let lines: Vec<&str> = text.split('\n').collect();
    assert_eq!(lines.len(), 54);
    assert_eq!(text.len(), 54 * 36 + 53);
    assert_eq!(lines[0], "n".repeat(36));
    assert_eq!(lines[1], "n     ".repeat(6));
    assert_eq!(lines[6], "n".repeat(36));
}

#[test]
fn tile_counts_from_scripts_are_at_least_one() {
    assert_eq!(tile_count_arg(-3), 1);
    assert_eq!(tile_count_arg(0), 1);
    assert_eq!(tile_count_arg(4), 4);
}

#[test]
fn native_frame_starts_with_the_argument_bytes() {
    assert_eq!(native_params(&[7, 8]), vec![8, 7, 8]);
    assert_eq!(native_params(&[]), vec![0]);
}

#[test]
fn returned_ids_are_cut_to_the_count_and_the_buffer() {
    assert_eq!(returned_ids(&[1, 2, 3], 2), vec![1, 2]);
    assert_eq!(returned_ids(&[1, 2, 3], 9), vec![1, 2, 3]);
    assert_eq!(returned_ids(&[1, 2, 3], -1), vec![1, 2, 3]);
    assert_eq!(returned_ids(&[1, 2, 3], 0), Vec::<i32>::new());
}

#[test]
fn default_settings() {
    let audio = AudioConfig::default();
    assert_eq!(audio.server_bind, "0.0.0.0:7878");
    assert_eq!(audio.output_dir, "samp-led/audio_cache");
    assert_eq!(audio.base_url, "http://127.0.0.1:7878");
    let model = ScreenModelConfig::default();
    assert_eq!((model.standard_model_id, model.shadow_model_id), (-1003, -1004));
    assert_eq!((model.standard_base_model_id, model.shadow_base_model_id), (19805, 19806));
    assert_eq!(model.standard_dff, "screen.dff");
    assert_eq!(model.standard_txd, "screen.txd");
    assert_eq!(model.shadow_dff, "screen-shadow.dff");
    assert_eq!(model.shadow_txd, "screen-shadow.txd");
}

#[test]
fn colour_tags_are_six_upper_case_hex_digits() {
    let mut text = String::from("x");
    push_color_tag(&mut text, 0x0A1B2C);
    assert_eq!(text, "x{0A1B2C}");
}

#[test]
fn strings_are_appended_character_by_character() {
    let mut text = String::from("ab");
    push_str(&mut text, "cé");
    assert_eq!(text, "abcé");
    assert_eq!(chars_of("né"), vec!['n', 'é']);
}
