use overlaytxt::{ControlCommand, DanmakuManager, TrackSystem};

/// What the render thread draws for one text danmaku in these tests:
/// (UTF-16 text, font size, colour, speed, width, x position).
type Text = (Vec<u16>, f32, [u8; 4], f32, f32, f32);

fn text_item(text: Vec<u16>, font_size: f32, color: [u8; 4], speed: f32, width: f32, x: f32) -> Text {
    (text, font_size, color, speed, width, x)
}

/// Rows of tracks in a band, as the overlay computes them.
fn rows(display_height: f32, track_height: f32) -> usize {
    (display_height / track_height) as usize
}

/// One frame of motion for every item: move left by `speed * dt`, gone once
/// the right edge passes the left screen edge.
fn frame(dm: &DanmakuManager<Text>, dt: f32) -> Vec<Option<Text>> {
    dm.active_items()
        .iter()
        .map(|item| {
            let mut c = item.content.clone();
            c.5 -= c.3 * dt;
            if c.5 + c.4 < 0.0 {
                None
            } else {
                Some(c)
            }
        })
        .collect()
}

#[test]
fn test_track_system_allocate_release() {
    let mut ts = TrackSystem::new(rows(400.0, 40.0));
    assert_eq!(ts.num_tracks(), 10);
    let t = ts.allocate_track();
    assert!(t.is_some());
    assert_eq!(ts.track_counts()[t.unwrap()], 1);
    ts.release_track(t.unwrap());
    assert_eq!(ts.track_counts()[t.unwrap()], 0);
}

#[test]
fn test_release_all() {
    let mut ts = TrackSystem::new(rows(400.0, 40.0));
    let t1 = ts.allocate_track().unwrap();
    let t2 = ts.allocate_track().unwrap();
    assert_eq!(ts.track_counts()[t1], 1);
    assert_eq!(ts.track_counts()[t2], 1);
    ts.release_all();
    assert!(ts.track_counts().iter().all(|&c| c == 0));
}

#[test]
fn test_track_system_exhausted() {
    let mut ts = TrackSystem::new(rows(40.0, 40.0));
    assert_eq!(ts.num_tracks(), 1);
    let t = ts.allocate_track();
    assert!(t.is_some());
    // a single track can always take another danmaku
    let t2 = ts.allocate_track();
    assert!(t2.is_some());
}

#[test]
fn test_danmaku_manager_max_items() {
    let mut dm: DanmakuManager<Text> = DanmakuManager::new(rows(1080.0 * 1.0, 40.0));
    dm.set_max_danmaku(2);
    dm.add_inline(text_item(vec![65; 10], 28.0, [255; 4], 150.0, 100.0, 1920.0));
    dm.add_inline(text_item(vec![66; 10], 28.0, [255; 4], 150.0, 100.0, 1920.0));
    dm.add_inline(text_item(vec![67; 10], 28.0, [255; 4], 150.0, 100.0, 1920.0));
    assert_eq!(dm.active_items().len(), 2);
}

#[test]
fn test_pause_resume() {
    let mut dm: DanmakuManager<Text> = DanmakuManager::new(rows(1080.0 * 1.0, 40.0));
    dm.add_inline(text_item(vec![65; 10], 28.0, [255; 4], 150.0, 100.0, 1920.0));
    let x_before = dm.active_items()[0].content.5;
    dm.pause();
    let moved = frame(&dm, 1.0);
    dm.update(moved);
    assert_eq!(dm.active_items()[0].content.5, x_before);
    dm.resume();
    let moved = frame(&dm, 1.0);
    dm.update(moved);
    assert!(dm.active_items()[0].content.5 < x_before);
}

#[test]
fn zero_rows_still_give_one_track() {
    let ts = TrackSystem::new(0);
    assert_eq!(ts.num_tracks(), 1);
    assert_eq!(ts.track_counts(), &[0]);
}

#[test]
fn allocation_fills_tracks_in_order_then_wraps() {
    let mut ts = TrackSystem::new(3);
    let got: Vec<usize> = (0..7).map(|_| ts.allocate_track().unwrap()).collect();
    assert_eq!(got, vec![0, 1, 2, 0, 1, 2, 0]);
    assert_eq!(ts.track_counts(), &[3, 2, 2]);
}

#[test]
fn allocation_prefers_first_least_loaded_track() {
    let mut ts = TrackSystem::new(4);
    for _ in 0..8 {
        ts.allocate_track();
    }
    ts.release_track(2);
    ts.release_track(1);
    ts.release_track(1);
    assert_eq!(ts.track_counts(), &[2, 0, 1, 2]);
    assert_eq!(ts.allocate_track(), Some(1));
    assert_eq!(ts.allocate_track(), Some(1));
    assert_eq!(ts.allocate_track(), Some(2));
    assert_eq!(ts.allocate_track(), Some(0));
}

#[test]
fn release_saturates_and_ignores_unknown_tracks() {
    let mut ts = TrackSystem::new(2);
    ts.release_track(0);
    assert_eq!(ts.track_counts(), &[0, 0]);
    ts.allocate_track();
    ts.release_track(7);
    assert_eq!(ts.track_counts(), &[1, 0]);
}

#[test]
fn release_undoes_allocate() {
    let mut ts = TrackSystem::new(5);
    for _ in 0..7 {
        ts.allocate_track();
    }
    let before = ts.track_counts().to_vec();
    let t = ts.allocate_track().unwrap();
    ts.release_track(t);
    assert_eq!(ts.track_counts(), &before[..]);
}

#[test]
fn allocation_keeps_loads_balanced() {
    let mut ts = TrackSystem::new(6);
    for _ in 0..40 {
        ts.allocate_track();
        let max = *ts.track_counts().iter().max().unwrap();
        let min = *ts.track_counts().iter().min().unwrap();
        assert!(max - min <= 1);
    }
}

#[test]
fn items_leaving_the_screen_release_their_tracks() {
    let mut dm: DanmakuManager<Text> = DanmakuManager::new(3);
    dm.add_inline(text_item(vec![1], 28.0, [255; 4], 100.0, 30.0, 60.0));
    dm.add_inline(text_item(vec![2], 28.0, [255; 4], 10.0, 30.0, 60.0));
    dm.add_inline(text_item(vec![3], 28.0, [255; 4], 200.0, 30.0, 60.0));
    assert_eq!(dm.track_system().track_counts(), &[1, 1, 1]);
    let tracks: Vec<usize> = dm.active_items().iter().map(|i| i.track).collect();
    assert_eq!(tracks, vec![0, 1, 2]);

    // after one second the first and the third are past the left edge
    let moved = frame(&dm, 1.0);
    assert!(dm.update(moved));
    assert_eq!(dm.active_items().len(), 1);
    assert_eq!(dm.active_items()[0].content.0, vec![2]);
    assert_eq!(dm.active_items()[0].content.5, 50.0);
    assert_eq!(dm.active_items()[0].track, 1);
    assert!(dm.active_items()[0].alive);
    assert_eq!(dm.track_system().track_counts(), &[0, 1, 0]);

    // a new danmaku goes to the first free track
    dm.add_inline(text_item(vec![4], 28.0, [255; 4], 10.0, 30.0, 60.0));
    assert_eq!(dm.active_items()[1].track, 0);

    // after ten more seconds everything has gone
    let moved = frame(&dm, 10.0);
    assert!(!dm.update(moved));
    assert!(dm.active_items().is_empty());
    assert_eq!(dm.track_system().track_counts(), &[0, 0, 0]);
}

#[test]
fn paused_update_reports_items_on_screen() {
    let mut dm: DanmakuManager<Text> = DanmakuManager::new(2);
    dm.pause();
    assert!(!dm.update(Vec::new()));
    dm.add_inline(text_item(vec![1], 28.0, [255; 4], 100.0, 50.0, 10.0));
    let moved = frame(&dm, 5.0);
    assert_eq!(moved[0], None);
    assert!(dm.update(moved));
    assert_eq!(dm.active_items().len(), 1);
    assert_eq!(dm.track_system().track_counts(), &[1, 0]);
}

#[test]
fn clear_removes_everything_and_frees_tracks() {
    let mut dm: DanmakuManager<Text> = DanmakuManager::new(2);
    for k in 0..5u16 {
        dm.add_inline(text_item(vec![k], 28.0, [255; 4], 100.0, 50.0, 100.0));
    }
    assert_eq!(dm.track_system().track_counts(), &[3, 2]);
    dm.clear_danmaku();
    assert!(dm.active_items().is_empty());
    assert_eq!(dm.track_system().track_counts(), &[0, 0]);
}

#[test]
fn rebuilding_tracks_keeps_items() {
    let mut dm: DanmakuManager<Text> = DanmakuManager::new(2);
    dm.add_inline(text_item(vec![1], 28.0, [255; 4], 100.0, 50.0, 100.0));
    dm.add_inline(text_item(vec![2], 28.0, [255; 4], 100.0, 50.0, 100.0));
    dm.rebuild_tracks(rows(1080.0 * 0.5, 60.0));
    assert_eq!(dm.track_system().num_tracks(), 9);
    assert_eq!(dm.track_system().track_counts(), &[0; 9]);
    assert_eq!(dm.active_items().len(), 2);
    assert_eq!(dm.active_items()[1].track, 1);
    // an item on a track that no longer exists releases nothing when it leaves
    dm.rebuild_tracks(1);
    dm.add_inline(text_item(vec![3], 28.0, [255; 4], 100.0, 50.0, 100.0));
    let moved = vec![None, None, Some(text_item(vec![3], 28.0, [255; 4], 100.0, 50.0, 0.0))];
    assert!(dm.update(moved));
    assert_eq!(dm.track_system().track_counts(), &[0]);
    assert_eq!(dm.active_items().len(), 1);
}

#[test]
fn limit_drops_new_items_but_keeps_old_ones() {
    let mut dm: DanmakuManager<Text> = DanmakuManager::new(4);
    for k in 0..3u16 {
        dm.add_inline(text_item(vec![k], 28.0, [255; 4], 100.0, 50.0, 100.0));
    }
    dm.set_max_danmaku(1);
    assert_eq!(dm.active_items().len(), 3);
    dm.add_inline(text_item(vec![9], 28.0, [255; 4], 100.0, 50.0, 100.0));
    assert_eq!(dm.active_items().len(), 3);
    assert_eq!(dm.track_system().track_counts(), &[1, 1, 1, 0]);
    dm.set_max_danmaku(0);
    dm.add_inline(text_item(vec![9], 28.0, [255; 4], 100.0, 50.0, 100.0));
    assert_eq!(dm.active_items().len(), 4);
    assert_eq!(dm.active_items()[3].track, 3);
}

#[test]
fn frame_without_departures_changes_no_track() {
    let mut dm: DanmakuManager<Text> = DanmakuManager::new(3);
    for k in 0..4u16 {
        dm.add_inline(text_item(vec![k], 28.0, [255; 4], 100.0, 50.0, 1000.0));
    }
    let before = dm.track_system().track_counts().to_vec();
    let moved = frame(&dm, 0.5);
    assert!(dm.update(moved));
    assert_eq!(dm.active_items().len(), 4);
    assert_eq!(dm.track_system().track_counts(), &before[..]);
    assert!(dm.active_items().iter().all(|i| i.content.5 == 950.0));
}

#[test]
fn loads_never_exceed_danmaku_on_track() {
    let mut dm: DanmakuManager<Text> = DanmakuManager::new(4);
    let check = |dm: &DanmakuManager<Text>| {
        for (t, &load) in dm.track_system().track_counts().iter().enumerate() {
            let on_track = dm.active_items().iter().filter(|i| i.alive && i.track == t).count();
            assert!(load as usize <= on_track);
        }
    };
    for round in 0..12u16 {
        let speed = 50.0 + 40.0 * (round % 5) as f32;
        dm.add_inline(text_item(vec![round], 28.0, [255; 4], speed, 40.0, 300.0));
        check(&dm);
        if round == 6 {
            dm.rebuild_tracks(2);
            check(&dm);
        }
        let moved = frame(&dm, 1.0);
        dm.update(moved);
        check(&dm);
    }
}

#[test]
fn allocation_goes_round_robin_from_fresh_tracks() {
    let mut ts = TrackSystem::new(rows(400.0, 40.0));
    let k = ts.num_tracks();
    for n in 0..37usize {
        assert_eq!(ts.allocate_track(), Some(n % k));
        let counts = ts.track_counts();
        let total: u32 = counts.iter().sum();
        assert_eq!(total as usize, n + 1);
        for (j, &c) in counts.iter().enumerate() {
            let expected = (n + 1) / k + if j < (n + 1) % k { 1 } else { 0 };
            assert_eq!(c as usize, expected);
        }
    }
}

#[test]
fn control_commands() {
    let mut dm: DanmakuManager<Text> = DanmakuManager::new(3);
    for k in 0..4u16 {
        dm.add_inline(text_item(vec![k], 28.0, [255; 4], 100.0, 50.0, 100.0));
    }
    assert!(dm.apply_control(ControlCommand::Pause));
    assert!(dm.is_paused());
    assert!(dm.apply_control(ControlCommand::Resume));
    assert!(!dm.is_paused());
    assert!(dm.apply_control(ControlCommand::SetMaxDanmaku(4)));
    assert_eq!(dm.max_danmaku(), 4);
    dm.add_inline(text_item(vec![9], 28.0, [255; 4], 100.0, 50.0, 100.0));
    assert_eq!(dm.active_items().len(), 4);
    assert!(!dm.apply_control(ControlCommand::Quit));
    assert_eq!(dm.active_items().len(), 4);
    assert!(dm.apply_control(ControlCommand::ClearAll));
    assert!(dm.active_items().is_empty());
    assert_eq!(dm.track_system().track_counts(), &[0, 0, 0]);
}
