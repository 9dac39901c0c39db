use samp_vanilla_assets::registry::{tick_order, PreviewList, ScreenSlots};

#[test]
fn slots_keep_their_indices_after_a_take() {
    let mut slots = ScreenSlots::new();
    assert_eq!(slots.add("a"), 0);
    assert_eq!(slots.add("b"), 1);
    assert_eq!(slots.take(0), Some("a"));
    assert_eq!(slots.take(0), None);
    assert_eq!(slots.len(), 2);
    assert_eq!(slots.get_mut(1).map(|s| *s), Some("b"));
    assert_eq!(slots.add("c"), 2);
}

#[test]
fn taking_an_unknown_slot_changes_nothing() {
    let mut slots = ScreenSlots::new();
    slots.add(10);
    assert_eq!(slots.take(-1), None);
    assert_eq!(slots.take(5), None);
    assert_eq!(slots.get_mut(0).map(|s| *s), Some(10));
    assert!(slots.get_mut(3).is_none());
}

#[test]
fn ticks_start_at_the_offset_and_wrap() {
    assert_eq!(tick_order(3, 4), (vec![1, 2, 0], 2));
    assert_eq!(tick_order(3, 0), (vec![0, 1, 2], 1));
    assert_eq!(tick_order(1, 7), (vec![0], 1));
}

#[test]
fn every_screen_ticks_once_per_round() {
    for count in 1..6usize {
        for offset in 0..12usize {
            let (mut order, _) = tick_order(count, offset);
            order.sort();
            assert_eq!(order, (0..count).collect::<Vec<_>>());
        }
    }
}

#[test]
fn previews_are_found_by_anchor() {
    let mut previews = PreviewList::new();
    assert_eq!(previews.add(vec![10, 11]), 10);
    assert_eq!(previews.add(vec![20]), 20);
    assert_eq!(previews.remove_by_anchor(20), Some(vec![20]));
    assert_eq!(previews.remove_by_anchor(20), None);
    assert_eq!(previews.remove_by_anchor(11), None);
    assert_eq!(previews.remove_by_anchor(10), Some(vec![10, 11]));
}

#[test]
fn an_empty_table_gets_no_tick_and_keeps_its_offset() {
    assert_eq!(tick_order(0, 5), (vec![], 5));
}
