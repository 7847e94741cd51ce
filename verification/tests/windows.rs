use bevy_wgpu::{KeySet, WgpuRenderer, all_windows_known};

fn windows(ids: &[u128]) -> KeySet {
    let mut set = KeySet::new();
    for id in ids {
        set.insert(*id);
    }
    set
}

#[test]
fn resized_windows_are_handled_once_latest_first() {
    let known = windows(&[1, 2, 3]);
    let events = vec![1, 2, 1, 3, 2];
    assert_eq!(WgpuRenderer::handle_window_resized_events(&known, &events), vec![2, 3, 1]);
}

#[test]
fn latest_resize_event_comes_first() {
    let known = windows(&[4, 5]);
    let events = vec![4, 5, 4];
    assert_eq!(WgpuRenderer::handle_window_resized_events(&known, &events)[0], 4);
}

#[test]
fn no_resize_events_handle_nothing() {
    let known = windows(&[1]);
    assert!(WgpuRenderer::handle_window_resized_events(&known, &vec![]).is_empty());
}

#[test]
fn created_windows_are_handled_in_order() {
    let known = windows(&[1, 2]);
    let events = vec![2, 1, 2];
    assert_eq!(WgpuRenderer::handle_window_created_events(&known, &events), vec![2, 1, 2]);
}

#[test]
fn events_of_unknown_windows_are_detected() {
    let known = windows(&[1, 2]);
    assert!(all_windows_known(&known, &vec![1, 2, 2]));
    assert!(!all_windows_known(&known, &vec![1, 3]));
    assert!(all_windows_known(&known, &vec![]));
}

#[test]
fn only_the_primary_swap_chain_is_acquired() {
    assert_eq!(WgpuRenderer::get_swap_chain_outputs(Some(2), &vec![1, 2, 3]), vec![2]);
    assert_eq!(WgpuRenderer::get_swap_chain_outputs(Some(9), &vec![1, 2]), Vec::<u128>::new());
    assert_eq!(WgpuRenderer::get_swap_chain_outputs(None, &vec![]), Vec::<u128>::new());
}

#[test]
fn key_set_keeps_each_key_once() {
    let mut set = KeySet::new();
    set.insert(3);
    set.insert(3);
    assert!(set.contains(3));
    assert!(!set.contains(4));
}
