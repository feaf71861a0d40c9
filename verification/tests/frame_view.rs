use puffin::{select_slowest, FrameKey, FrameView, PackingInfo, ScopeDetails, ScopeId};
use std::cell::Cell;
use std::sync::Arc;

fn key(frame_index: u64, duration_ns: i64) -> FrameKey {
    FrameKey {
        frame_index,
        duration_ns,
    }
}

fn info(_: &u64) -> PackingInfo {
    PackingInfo {
        unpacked_size: Some(10),
        packed_size: None,
    }
}

fn no_pack(_: &u64) {}

fn add(view: &mut FrameView<u64>, index: u64, duration: i64) {
    view.add_frame(index, key(index, duration), &[], &info, &no_pack);
}

#[test]
fn recent_frames_are_bounded_and_newest_last() {
    let mut view = FrameView::new();
    assert!(view.is_empty());
    view.set_max_recent(3);
    for i in 0..5 {
        add(&mut view, i, 10);
    }
    let recent: Vec<u64> = view.recent_frames().into_iter().copied().collect();
    assert_eq!(recent, vec![2, 3, 4]);
    assert_eq!(view.latest_frame(), Some(&4));
    let latest: Vec<u64> = view.latest_frames(2).into_iter().copied().collect();
    assert_eq!(latest, vec![3, 4]);
}

#[test]
fn slowest_frames_keep_the_slowest_in_order() {
    let mut view = FrameView::new();
    view.set_max_slow(2);
    view.set_max_recent(1);
    add(&mut view, 0, 50);
    add(&mut view, 1, 10);
    add(&mut view, 2, 70);
    add(&mut view, 3, 20);
    let slow: Vec<u64> = view.slowest_frames_chronological().into_iter().copied().collect();
    assert_eq!(slow, vec![0, 2]);
    let all: Vec<u64> = view.all_uniq().into_iter().copied().collect();
    assert_eq!(all, vec![0, 2, 3]);
    assert_eq!(view.stats().frames(), 3);
    view.clear_slowest(&info);
    assert!(view.slowest_frames_chronological().is_empty());
    assert_eq!(view.stats().frames(), 1);
}

#[test]
fn a_frame_from_the_past_starts_afresh() {
    let mut view = FrameView::new();
    add(&mut view, 5, 10);
    add(&mut view, 6, 10);
    assert_eq!(view.stats().frames(), 2);
    add(&mut view, 1, 10);
    let recent: Vec<u64> = view.recent_frames().into_iter().copied().collect();
    assert_eq!(recent, vec![1]);
    assert_eq!(view.stats().frames(), 1);
}

#[test]
fn previous_frame_is_packed_and_counted() {
    let packed = Cell::new(0);
    let pack = |_: &u64| packed.set(packed.get() + 1);
    let mut view = FrameView::new();
    let scopes = [Arc::new(ScopeDetails::from_scope_name("s").with_scope_id(ScopeId::new(1)))];
    view.add_frame(0, key(0, 1), &scopes, &info, &pack);
    assert_eq!(packed.get(), 0);
    view.add_frame(1, key(1, 1), &[], &info, &pack);
    assert_eq!(packed.get(), 1);
    assert_eq!(view.stats().frames(), 2);
    assert_eq!(view.stats().bytes_of_ram_used(), 20);
    assert!(view.scope_collection().fetch_by_id(&ScopeId::new(1)).is_some());
    view.set_pack_frames(false);
    view.add_frame(2, key(2, 1), &[], &info, &pack);
    assert_eq!(packed.get(), 1);
    assert!(!view.pack_frames());
}

#[test]
fn select_slowest_returns_positions_in_chronological_order() {
    let frames = [key(0, 5), key(1, 30), key(2, 10), key(3, 30), key(4, 1)];
    assert_eq!(select_slowest(&frames, 2), vec![1, 3]);
    assert_eq!(select_slowest(&frames, 3), vec![1, 2, 3]);
    assert_eq!(select_slowest(&frames, 0), Vec::<usize>::new());
}

#[test]
fn stats_count_the_newest_frame() {
    let mut view = FrameView::new();
    add(&mut view, 0, 10);
    assert_eq!(view.stats().frames(), 1);
    assert_eq!(view.stats().bytes_of_ram_used(), 10);
    assert_eq!(view.stats().unpacked_frames(), 1);
}

#[test]
fn packed_previous_frame_is_counted_with_its_packed_size() {
    let packed = Cell::new(false);
    let info_now = |_: &u64| {
        if packed.get() {
            PackingInfo { unpacked_size: None, packed_size: Some(3) }
        } else {
            PackingInfo { unpacked_size: Some(10), packed_size: None }
        }
    };
    let mut view = FrameView::new();
    view.add_frame(0, key(0, 1), &[], &info_now, &|_: &u64| ());
    assert_eq!(view.stats().bytes_of_ram_used(), 10);
    // Packing the previous frame recounts it; here the closure reports it packed
    // from now on, for every frame.
    packed.set(true);
    view.add_frame(1, key(1, 1), &[], &info_now, &|_: &u64| ());
    assert_eq!(view.stats().frames(), 2);
    assert_eq!(view.stats().bytes_of_ram_used(), 3 + 3);
}
