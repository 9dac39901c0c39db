use samp_vanilla_assets::blacklist::{Blacklists, PlayerList};

#[test]
fn adding_lists_a_player_once() {
    let mut list = PlayerList::new();
    assert!(list.add(5));
    assert!(!list.add(5));
    assert!(list.contains(5));
    assert!(!list.contains(6));
    assert_eq!(list.snapshot(), vec![5]);
}

#[test]
fn removing_unlists_and_says_whether_listed() {
    let mut list = PlayerList::new();
    list.add(5);
    list.add(7);
    assert!(list.remove(5));
    assert!(!list.remove(5));
    assert!(!list.contains(5));
    assert_eq!(list.snapshot(), vec![7]);
}

#[test]
fn add_then_remove_restores_the_list() {
    let mut list = PlayerList::new();
    list.add(1);
    list.add(2);
    let before = list.snapshot();
    list.add(9);
    list.remove(9);
    assert_eq!(list.snapshot(), before);
}

#[test]
fn each_feature_has_its_own_list() {
    let mut lists = Blacklists::new();
    lists.screen_3d.add(1);
    lists.audio.add(2);
    lists.screen_dialog.add(3);
    lists.screen_textdraw.add(4);
    assert!(lists.is_screen_3d_blacklisted(1));
    assert!(!lists.is_screen_3d_blacklisted(2));
    assert!(lists.is_audio_blacklisted(2));
    assert!(lists.is_screen_dialog_blacklisted(3));
    assert!(!lists.is_screen_dialog_blacklisted(4));
    assert!(lists.is_screen_textdraw_blacklisted(4));
}
