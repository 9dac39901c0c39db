use samp_vanilla_assets::animation::{frame_index_for_elapsed, Animation, ScreenAnimation};

#[test]
fn index_is_the_frame_whose_span_holds_the_time() {
    let starts = [0u64, 100, 250];
    assert_eq!(frame_index_for_elapsed(&starts, 400, 120, false), 1);
    assert_eq!(frame_index_for_elapsed(&starts, 400, 100, false), 1);
    assert_eq!(frame_index_for_elapsed(&starts, 400, 0, false), 0);
    assert_eq!(frame_index_for_elapsed(&starts, 400, 399, false), 2);
}

#[test]
fn index_holds_the_last_frame_after_the_end() {
    assert_eq!(frame_index_for_elapsed(&[0, 100, 250], 400, 5000, false), 2);
}

#[test]
fn index_wraps_around_when_looping() {
    assert_eq!(frame_index_for_elapsed(&[0, 100, 250], 400, 520, true), 1);
    assert_eq!(frame_index_for_elapsed(&[0, 100, 250], 400, 800, true), 0);
}

#[test]
fn index_is_zero_without_frames_or_duration() {
    assert_eq!(frame_index_for_elapsed(&[], 0, 5, false), 0);
    assert_eq!(frame_index_for_elapsed(&[0, 0], 0, 5, true), 0);
}

#[test]
fn looping_clip_plays_once_fully_received() {
    let mut animation = ScreenAnimation::<u32>::from_frame_stream(true);
    animation.ingest_frame(7, 100);
    animation.ingest_frame(8, 200);
    assert!(!animation.ready_to_play());
    assert!(!animation.should_build_next_frame(1000));
    assert!(animation.build_frame(1000).is_none());

    animation.finish_stream();
    assert!(animation.ready_to_play());
    assert!(animation.should_build_next_frame(1000));
    assert!(!animation.should_build_next_frame(1050));
    assert!(animation.should_build_next_frame(1100));
    assert_eq!(animation.build_frame(1100), Some((8, 200)));
    assert_eq!(animation.total_duration(), 300);
    // One full loop later the first frame is back.
    assert!(animation.should_build_next_frame(1300));
    assert_eq!(animation.build_frame(1300), Some((7, 100)));
}

#[test]
fn live_stream_plays_as_soon_as_a_frame_arrives() {
    let mut animation = ScreenAnimation::<u32>::from_frame_stream(false);
    assert!(!animation.ready_to_play());
    animation.ingest_frame(5, 50);
    assert!(animation.ready_to_play());
    assert_eq!(animation.build_frame(10), Some((5, 50)));
    assert_eq!(animation.frame_index_at(10_000), 0);
    animation.ingest_frame(6, 50);
    assert_eq!(animation.build_frame(10_000), Some((6, 50)));
}

#[test]
fn playback_clock_starts_once() {
    let mut animation = ScreenAnimation::<u32>::from_frame_stream(false);
    animation.ingest_frame(1, 100);
    animation.ingest_frame(2, 100);
    animation.ensure_playback_started(500);
    animation.ensure_playback_started(9000);
    assert_eq!(animation.frame_index_at(550), 0);
    assert_eq!(animation.frame_index_at(650), 1);
    // A clock reading before the start counts as the start.
    assert_eq!(animation.frame_index_at(100), 0);
}

#[test]
fn screen_without_playback_shows_nothing_new() {
    let mut animation = Animation::<u32>::new(100, 0);
    assert!(!animation.should_build_next_frame(5));
    assert!(animation.build_animation_frame(5).is_none());
    assert_eq!(animation.advance(5), None);
    assert_eq!(animation.frame_duration, 100);
    assert_eq!(animation.since, 0);
}

#[test]
fn advance_puts_up_each_new_frame_once() {
    let mut playback = ScreenAnimation::<u32>::from_frame_stream(false);
    playback.ingest_frame(1, 100);
    playback.ingest_frame(2, 300);
    let mut animation = Animation::new(60, 0);
    animation.set_animation(playback);

    assert_eq!(animation.advance(1000), Some(1));
    assert_eq!((animation.frame_duration, animation.since), (100, 1000));
    assert_eq!(animation.advance(1050), None);
    assert_eq!((animation.frame_duration, animation.since), (100, 1000));
    assert_eq!(animation.advance(1100), Some(2));
    assert_eq!((animation.frame_duration, animation.since), (300, 1100));
}

#[test]
fn a_single_frame_of_a_finished_clip_comes_back_with_its_delay() {
    let mut animation = ScreenAnimation::<String>::from_frame_stream(true);
    animation.ingest_frame("a".to_string(), 50);
    assert!(!animation.stream_finished());
    animation.finish_stream();
    assert!(animation.stream_finished());
    assert_eq!(animation.build_frame(0), Some(("a".to_string(), 50)));
    assert_eq!(animation.build_frame(75), Some(("a".to_string(), 50)));
}
