use samp_vanilla_assets::audio::{
    content_type_for, content_type_for_extension, is_servable, relay_path_matches, resolve_path,
    ChannelReader, LiveAudio, PathTable,
};

#[test]
fn request_for_the_registered_path_matches() {
    assert!(relay_path_matches("clip_1.mp3", "clip_1.mp3"));
}

#[test]
fn request_ending_in_the_registered_path_matches() {
    assert!(relay_path_matches("audio/clip_1.mp3", "clip_1.mp3"));
    assert!(relay_path_matches("audio/clip_1.mp3//", "clip_1.mp3"));
}

#[test]
fn request_for_another_path_does_not_match() {
    assert!(!relay_path_matches("clip_2.mp3", "clip_1.mp3"));
    assert!(!relay_path_matches("mp3", "clip_1.mp3"));
    assert!(!relay_path_matches("clip_1.mp3x", "clip_1.mp3"));
}

#[test]
fn every_request_ends_with_the_empty_path() {
    assert!(relay_path_matches("anything", ""));
}

#[test]
fn registered_source_is_found_with_its_relay() {
    let mut live = LiveAudio::<u32>::new();
    let stopped = live.register_live_source("clip_1.mp3".to_string(), "http://a/1".to_string(), true, Some(11));
    assert!(stopped.is_empty());
    let source = live.live_source_for("clip_1.mp3").expect("registered");
    assert_eq!(source.url, "http://a/1");
    assert!(source.loops);
    assert_eq!(live.relay_for("clip_1.mp3"), Some(&11));
    assert!(live.live_source_for("clip_1").is_none());
}

#[test]
fn registering_again_replaces_the_old_relay() {
    let mut live = LiveAudio::<u32>::new();
    live.register_live_source("clip_1.mp3".to_string(), "http://a/1".to_string(), true, Some(11));
    let stopped = live.register_live_source("clip_1.mp3".to_string(), "http://a/2".to_string(), false, Some(12));
    assert_eq!(stopped, vec![11]);
    assert_eq!(live.relay_for("clip_1.mp3"), Some(&12));
    let source = live.live_source_for("clip_1.mp3").expect("registered");
    assert_eq!(source.url, "http://a/2");
    assert!(!source.loops);
}

#[test]
fn source_without_a_relay_is_not_registered() {
    let mut live = LiveAudio::<u32>::new();
    live.register_live_source("clip_1.mp3".to_string(), "http://a/1".to_string(), true, Some(11));
    let stopped = live.register_live_source("clip_1.mp3".to_string(), "http://a/2".to_string(), true, None);
    assert_eq!(stopped, vec![11]);
    assert!(live.live_source_for("clip_1.mp3").is_none());
    assert!(live.relay_for("clip_1.mp3").is_none());
}

#[test]
fn stopping_a_path_forgets_what_it_refers_to() {
    let mut live = LiveAudio::<u32>::new();
    live.register_live_source("clip_1.mp3".to_string(), "http://a/1".to_string(), true, Some(11));
    live.register_live_source("clip_2.mp3".to_string(), "http://a/2".to_string(), true, Some(22));
    assert_eq!(live.stop_live_source("audio/clip_1.mp3/"), vec![11]);
    assert!(live.live_source_for("clip_1.mp3").is_none());
    assert_eq!(live.relay_for("clip_2.mp3"), Some(&22));
    assert!(live.stop_live_source("clip_3.mp3").is_empty());
}

#[test]
fn table_finds_first_exact_entry_and_removes_all_that_match() {
    let mut table = PathTable::<u8>::new();
    table.register("a.mp3".to_string(), 1);
    table.register("b.mp3".to_string(), 2);
    table.register("a.mp3".to_string(), 3);
    assert_eq!(table.find("a.mp3"), Some(&1));
    assert_eq!(table.find("c.mp3"), None);
    assert_eq!(table.remove_matching("x/a.mp3"), vec![1, 3]);
    assert_eq!(table.find("a.mp3"), None);
    assert_eq!(table.find("b.mp3"), Some(&2));
}

#[test]
fn cache_paths_must_be_present_and_stay_inside() {
    assert!(is_servable("clip_1.mp3"));
    assert!(is_servable("a.b/c.mp3"));
    assert!(!is_servable(""));
    assert!(!is_servable("../secret"));
    assert!(!is_servable("a..b"));
    assert!(resolve_path("cache", "").is_none());
    assert!(resolve_path("cache", "x/../y").is_none());
    let path = resolve_path("cache", "clip_1.mp3").expect("servable");
    assert_eq!(std::path::Path::new(&path), std::path::Path::new("cache").join("clip_1.mp3"));
    let nested = resolve_path("cache", "a/b.ogg").expect("servable");
    assert_eq!(std::path::Path::new(&nested), std::path::Path::new("cache/a/b.ogg"));
}

#[test]
fn content_types_by_extension() {
    assert_eq!(content_type_for_extension(Some("mp3")), Some("audio/mpeg"));
    assert_eq!(content_type_for_extension(Some("ogg")), Some("audio/ogg"));
    assert_eq!(content_type_for_extension(Some("wav")), None);
    assert_eq!(content_type_for_extension(Some("MP3")), None);
    assert_eq!(content_type_for_extension(None), None);
}

#[test]
fn content_type_of_a_resolved_file() {
    let mp3 = resolve_path("cache", "clip_1.mp3").expect("servable");
    assert_eq!(content_type_for(&mp3), Some("audio/mpeg"));
    let ogg = resolve_path("cache", "song.ogg").expect("servable");
    assert_eq!(content_type_for(&ogg), Some("audio/ogg"));
    let bare = resolve_path("cache", "README").expect("servable");
    assert_eq!(content_type_for(&bare), None);
    assert_eq!(content_type_for("cache/clip.wav"), None);
    assert_eq!(content_type_for("cache.mp3/readme"), None);
}

#[test]
fn reader_hands_out_a_chunk_in_pieces() {
    let mut reader = ChannelReader::new(());
    assert!(reader.needs_chunk());
    assert!(reader.take_bytes(4).is_empty());
    reader.refill(vec![1, 2, 3]);
    assert!(!reader.needs_chunk());
    assert_eq!(reader.take_bytes(2), vec![1, 2]);
    assert_eq!(reader.take_bytes(5), vec![3]);
    assert!(reader.needs_chunk());
    reader.refill(vec![9]);
    assert_eq!(reader.take_bytes(0), Vec::<u8>::new());
    assert_eq!(reader.take_bytes(1), vec![9]);
}
