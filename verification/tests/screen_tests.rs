use samp_vanilla_assets::animation::ScreenAnimation;
use samp_vanilla_assets::blacklist::PlayerList;
use samp_vanilla_assets::config::ScreenModelConfig;
use samp_vanilla_assets::frame3d::{Frame3DMaterial, Frame3DMaterialLayer};
use samp_vanilla_assets::listeners::{
    add_listener, audible, remove_listener, start_area_audio, start_player_audio, sync_listeners,
};
use samp_vanilla_assets::paint_ring::{PaintRing, POST_SWAP_GRACE_NANOS, SETTLE_NANOS};
use samp_vanilla_assets::screen_buffer::{
    tile_layout, tile_offset, ScreenBuffer, ScreenBufferTile, ScreenModel,
};

fn layer(index: i32, text: &str) -> Frame3DMaterialLayer {
    Frame3DMaterialLayer { material_index: index, text: text.to_string(), font_size: 5 }
}

#[test]
fn screen_models_by_id() {
    let config = ScreenModelConfig::default();
    assert_eq!(ScreenModel::from_id(0).map(|m| m.to_model_id(&config)), Some(-1003));
    assert_eq!(ScreenModel::from_id(1).map(|m| m.to_model_id(&config)), Some(-1004));
    assert_eq!(ScreenModel::from_id(0).map(|m| m.to_base_model_id(&config)), Some(19805));
    assert_eq!(ScreenModel::from_id(1).map(|m| m.to_base_model_id(&config)), Some(19806));
    assert!(ScreenModel::from_id(2).is_none());
    assert!(ScreenModel::from_id(-1).is_none());
}

#[test]
fn screen_models_follow_the_configuration() {
    let mut config = ScreenModelConfig::default();
    config.standard_model_id = -2001;
    config.shadow_model_id = -2002;
    config.standard_base_model_id = 18000;
    config.shadow_base_model_id = 18001;
    assert_eq!(ScreenModel::Standard.to_model_id(&config), -2001);
    assert_eq!(ScreenModel::Shadow.to_model_id(&config), -2002);
    assert_eq!(ScreenModel::Standard.to_base_model_id(&config), 18000);
    assert_eq!(ScreenModel::Shadow.to_base_model_id(&config), 18001);
}

#[test]
fn staging_queues_layers_then_blanks_for_unused_materials() {
    let mut tile = ScreenBufferTile::new(7);
    assert!(!tile.has_pending());
    tile.stage_paint(&[layer(0, "a"), layer(1, "b")]);
    assert_eq!(tile.last_painted_layers, 2);
    let taken = tile.take_pending(100);
    assert_eq!(taken.len(), 16);
    assert_eq!(taken[0].text, "a");
    assert_eq!(taken[1].text, "b");
    assert_eq!((taken[2].material_index, taken[2].text.as_str(), taken[2].font_size), (2, " ", 10));
    assert_eq!(taken[15].material_index, 15);
    assert!(!tile.has_pending());
}

#[test]
fn taking_respects_the_budget_and_order() {
    let mut tile = ScreenBufferTile::new(7);
    tile.stage_paint(&vec![layer(0, "a"); 16]);
    let first = tile.take_pending(5);
    assert_eq!(first.len(), 5);
    assert!(tile.has_pending());
    assert_eq!(tile.take_pending(100).len(), 11);
    tile.stage_paint(&[layer(0, "x"), layer(1, "y"), layer(2, "z")]);
    // 3 new layers, then blanks for the 13 materials painted last time.
    let next = tile.take_pending(100);
    assert_eq!(next.len(), 16);
    assert_eq!(next[3].material_index, 3);
    assert_eq!(next[3].text, " ");
    tile.stage_paint(&vec![layer(0, "x"); 5]);
    // Only 3 were painted last time: nothing to blank now.
    assert_eq!(tile.take_pending(100).len(), 5);
}

#[test]
fn buffer_stages_each_tile_with_its_material() {
    let mut buffer = ScreenBuffer { tiles: vec![ScreenBufferTile::new(1), ScreenBufferTile::new(2)], tile_cols: 2 };
    buffer.stage_paint(&vec![Frame3DMaterial { layers: vec![layer(0, "p"); 16] }]);
    assert!(buffer.has_pending());
    let taken = buffer.take_pending(20);
    assert_eq!(taken.len(), 2);
    assert_eq!(taken[0].len(), 16);
    assert_eq!(taken[1].len(), 0);
    assert!(!buffer.has_pending());
}

#[test]
fn buffer_spreads_the_budget_tile_by_tile() {
    let mut buffer = ScreenBuffer { tiles: vec![ScreenBufferTile::new(1), ScreenBufferTile::new(2)], tile_cols: 1 };
    let material = Frame3DMaterial { layers: vec![layer(0, "p"); 16] };
    buffer.stage_paint(&vec![material.clone(), material]);
    let taken = buffer.take_pending(20);
    assert_eq!((taken[0].len(), taken[1].len()), (16, 4));
    let rest = buffer.take_pending(20);
    assert_eq!((rest[0].len(), rest[1].len()), (0, 12));
}

#[test]
fn tile_positions_run_row_by_row() {
    assert_eq!(tile_offset(5, 2), (1, 2));
    assert_eq!(tile_layout(2, 2), vec![(0, 0), (1, 0), (0, 1), (1, 1)]);
    assert!(tile_layout(3, 0).is_empty());
}

#[test]
fn listeners_join_once_and_leave_once() {
    let blocked = PlayerList::new();
    let mut listeners = vec![1];
    assert!(add_listener(&mut listeners, 3, &blocked));
    assert!(!add_listener(&mut listeners, 3, &blocked));
    assert_eq!(listeners, vec![1, 3]);
    assert!(remove_listener(&mut listeners, 1));
    assert!(!remove_listener(&mut listeners, 1));
    assert_eq!(listeners, vec![3]);
}

#[test]
fn sync_makes_listeners_the_players_inside() {
    let blocked = PlayerList::new();
    let mut listeners = vec![1, 2, 3];
    let (entered, left) = sync_listeners(&mut listeners, &vec![3, 4, 1, 4], &blocked);
    assert_eq!(entered, vec![4]);
    assert_eq!(left, vec![2]);
    assert_eq!(listeners, vec![1, 3, 4]);
    let (entered, left) = sync_listeners(&mut listeners, &vec![], &blocked);
    assert!(entered.is_empty());
    assert_eq!(left, vec![1, 3, 4]);
    assert!(listeners.is_empty());
}

#[test]
fn audio_blacklisted_players_never_become_listeners() {
    let mut blocked = PlayerList::new();
    assert!(blocked.add(4));
    let mut listeners = vec![1];
    assert!(!add_listener(&mut listeners, 4, &blocked));
    assert_eq!(listeners, vec![1]);
    assert_eq!(audible(&vec![4, 1, 5], &blocked), vec![1, 5]);
    let (entered, left) = sync_listeners(&mut listeners, &vec![1, 4, 5], &blocked);
    assert_eq!(entered, vec![5]);
    assert!(left.is_empty());
    assert_eq!(listeners, vec![1, 5]);
    assert!(blocked.add(1));
    let (entered, left) = sync_listeners(&mut listeners, &vec![1, 4, 5], &blocked);
    assert!(entered.is_empty());
    assert_eq!(left, vec![1]);
    assert_eq!(listeners, vec![5]);
}

fn ring() -> PaintRing {
    let buffers = vec![
        ScreenBuffer { tiles: vec![ScreenBufferTile::new(1)], tile_cols: 1 },
        ScreenBuffer { tiles: vec![ScreenBufferTile::new(2)], tile_cols: 1 },
        ScreenBuffer { tiles: vec![ScreenBufferTile::new(3)], tile_cols: 1 },
    ];
    PaintRing::new(buffers, 100_000_000, 0)
}

#[test]
fn allocation_skips_the_visible_buffer() {
    let mut ring = ring();
    assert_eq!(ring.allocate_paint_target(), 1);
    assert_eq!(ring.allocate_paint_target(), 2);
    assert_eq!(ring.allocate_paint_target(), 1);
}

#[test]
fn a_frame_is_painted_hidden_then_swapped_in() {
    let mut ring = ring();
    let mut playback = ScreenAnimation::from_frame_stream(false);
    playback.ingest_frame(vec![Frame3DMaterial { layers: vec![layer(0, "n")] }], 50_000_000);
    ring.set_animation(playback);

    assert!(!ring.may_start_paint(0));
    let now = POST_SWAP_GRACE_NANOS;
    assert!(ring.start_next_paint(now));
    assert_eq!(ring.painting_target(), Some(1));
    assert!(ring.has_pending_paint(1));
    let taken = ring.take_pending(1, 100);
    assert_eq!(taken[0].len(), 16);
    assert!(!ring.has_pending_paint(1));

    ring.finish_paint(now);
    assert_eq!(ring.painting_target(), None);
    assert_eq!(ring.swap_candidate(now), None);
    let later = now + SETTLE_NANOS + 100_000_000;
    assert_eq!(ring.swap_candidate(later), Some(1));
    ring.complete_swap(later, true);
    assert_eq!(ring.visible_index(), 1);
    assert!(!ring.start_next_paint(later + POST_SWAP_GRACE_NANOS));
    assert_eq!(ring.allocate_paint_target(), 2);
}

#[test]
fn a_failed_move_keeps_the_visible_buffer() {
    let mut ring = ring();
    ring.start_frame(vec![], 40_000_000, 0);
    // Nothing to paint: ready at once.
    assert_eq!(ring.painting_target(), None);
    assert_eq!(ring.swap_candidate(200_000_000), Some(1));
    ring.complete_swap(200_000_000, false);
    assert_eq!(ring.visible_index(), 0);
}

#[test]
fn starting_audio_skips_listeners_and_blacklisted_players() {
    let mut blocked = PlayerList::new();
    assert!(blocked.add(2));
    let mut listening = false;
    assert!(start_player_audio(&mut listening, 1, &blocked));
    assert!(listening);
    assert!(!start_player_audio(&mut listening, 1, &blocked));
    let mut other = false;
    assert!(!start_player_audio(&mut other, 2, &blocked));
    assert!(!other);
    let mut listeners = vec![3, 2, 5];
    assert_eq!(start_area_audio(&mut listeners, &blocked), vec![3, 5]);
    assert_eq!(listeners, vec![3, 5]);
}
