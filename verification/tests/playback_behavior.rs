use image_playback::error::ErrorKind;
use image_playback::fs_path::FsPath;
use image_playback::cache::{LoadOutcome, UploadedImage};
use image_playback::playback::{
    LoadRequest, PlaybackManager, PlaybackState, TitleAction, BUSY_WAIT_THRESHOLD_NANOS,
    FRAME_DELTA_NANOS, frame_step,
};

fn named(full: &str, name: &str) -> FsPath {
    FsPath::with_name(String::from(full), String::from(name))
}

fn manager_over(files: &[(&str, &str)]) -> PlaybackManager {
    let mut m = PlaybackManager::new_with_host_info(None, None);
    let listing: Vec<FsPath> = files.iter().map(|(f, n)| named(f, n)).collect();
    m.update_directory(Ok(listing)).unwrap();
    m
}

#[test]
fn frame_step_two_frames_due() {
    assert_eq!(frame_step(100_000_000, FRAME_DELTA_NANOS, 0), 2);
    assert_eq!(frame_step(100_000_000, FRAME_DELTA_NANOS, 2), 0);
    assert_eq!(frame_step(39_999_999, FRAME_DELTA_NANOS, 0), 0);
}

#[test]
fn playing_tick_synthesizes_jump_and_counts_frames() {
    let mut m = manager_over(&[("/d/a.png", "a.png"), ("/d/b.png", "b.png"), ("/d/c.png", "c.png")]);
    m.start_playback_forward(0);
    let plan = m.update_image(100_000_000);
    assert!(matches!(plan.request, LoadRequest::Jump(2)));
    assert!(!plan.drain_prefetched);
    assert!(!plan.send_requests);
    // the two due frames are now counted: the same instant owes no more
    let plan2 = m.update_image(100_000_000);
    assert!(matches!(plan2.request, LoadRequest::NoRequest));
    assert!(plan2.drain_prefetched);
}

#[test]
fn busy_wait_only_near_frame_boundary() {
    let mut m = manager_over(&[("/d/a.png", "a.png")]);
    m.start_playback_forward(0);
    // 35 ms into a 40 ms frame: past the 80% mark (32 ms), so spin
    let plan = m.update_image(35_000_000);
    assert!(matches!(plan.request, LoadRequest::NoRequest));
    assert!(plan.drain_prefetched);
    assert!(!plan.send_requests);
    assert!(!m.should_sleep());
    assert!(35_000_000 > BUSY_WAIT_THRESHOLD_NANOS);

    // 10 ms in: slack, so prefetch and sleep
    let mut m2 = manager_over(&[("/d/a.png", "a.png")]);
    m2.start_playback_forward(0);
    let plan2 = m2.update_image(10_000_000);
    assert!(matches!(plan2.request, LoadRequest::NoRequest));
    assert!(plan2.drain_prefetched);
    assert!(plan2.send_requests);
    assert!(m2.should_sleep());
}

#[test]
fn request_consumed_exactly_once_per_tick() {
    let mut m = manager_over(&[("/d/a.png", "a.png")]);
    m.request_load(LoadRequest::LoadNext);
    let plan = m.update_image(0);
    assert!(matches!(plan.request, LoadRequest::LoadNext));
    assert!(matches!(m.load_request(), LoadRequest::NoRequest));
    // the next tick sees no stale request
    let plan2 = m.update_image(0);
    assert!(matches!(plan2.request, LoadRequest::NoRequest));
}

#[test]
fn request_consumed_even_when_processing_fails() {
    // empty directory: the navigation fails, but the request is still gone
    let mut m = PlaybackManager::new_with_host_info(None, None);
    m.request_load(LoadRequest::LoadNext);
    let plan = m.update_image(0);
    assert!(matches!(plan.request, LoadRequest::LoadNext));
    let out = m.dispatch_request(plan.request);
    assert!(matches!(out, Some(LoadOutcome::Failed(ErrorKind::NotFound))));
    assert!(matches!(m.load_request(), LoadRequest::NoRequest));
}

#[test]
fn load_specific_without_filename_fails_before_cache_work() {
    let mut m = manager_over(&[("/d/a.png", "a.png")]);
    let root = FsPath::without_name(String::from("/"));
    let out = m.dispatch_request(LoadRequest::LoadSpecific(root));
    assert!(matches!(out, Some(LoadOutcome::Failed(ErrorKind::NameExtraction))));
}

#[test]
fn paused_next_scenario_sets_title_and_wakes() {
    let mut m = manager_over(&[("/d/a.png", "a.png"), ("/d/b.png", "b.png"), ("/d/c.png", "c.png")]);
    // current = a.png (first entry), paused; the user asks for the next image
    assert_eq!(m.current_filename().unwrap(), "a.png");
    assert_eq!(m.playback_state(), PlaybackState::Paused);
    m.request_load(LoadRequest::LoadNext);
    let plan = m.update_image(0);
    assert!(plan.drain_prefetched && plan.send_requests);
    assert!(matches!(plan.request, LoadRequest::LoadNext));
    // cache miss: the caller must decode b.png synchronously
    let out = m.dispatch_request(plan.request).unwrap();
    let target = match out {
        LoadOutcome::NeedsDecode(p) => p,
        _ => panic!("expected a cache miss"),
    };
    assert_eq!(target.full().as_str(), "/d/b.png");
    let result = m.complete_load(&target, Ok(UploadedImage { tex: 7, cost: 100 }));
    let title = m.apply_load_result(result);
    assert!(matches!(title, TitleAction::SetToFilename(n) if n == "b.png"));
    assert_eq!(m.current_filename().unwrap(), "b.png");
    assert_eq!(*m.image_texture(), Some(7));
    assert!(!m.should_sleep());
}

#[test]
fn title_updates_suppressed_during_playback() {
    let mut m = manager_over(&[("/d/a.png", "a.png"), ("/d/b.png", "b.png")]);
    m.start_playback_forward(0);
    let out = m.dispatch_request(LoadRequest::LoadNext).unwrap();
    let target = match out {
        LoadOutcome::NeedsDecode(p) => p,
        _ => panic!("expected a cache miss"),
    };
    let result = m.complete_load(&target, Ok(UploadedImage { tex: 3, cost: 10 }));
    let title = m.apply_load_result(result);
    assert!(matches!(title, TitleAction::Keep));
    assert_eq!(*m.image_texture(), Some(3));
}

#[test]
fn failed_load_clears_texture_and_reports_chain() {
    let mut m = manager_over(&[("/d/a.png", "a.png"), ("/d/b.png", "b.png")]);
    let out = m.dispatch_request(LoadRequest::LoadNext).unwrap();
    let target = match out {
        LoadOutcome::NeedsDecode(p) => p,
        _ => panic!("expected a cache miss"),
    };
    let result = m.complete_load(&target, Err(ErrorKind::Decode));
    match &result {
        Err(e) => assert_eq!(e.kind(), ErrorKind::Decode),
        Ok(_) => panic!("the decode failed"),
    }
    let title = m.apply_load_result(result);
    assert!(matches!(title, TitleAction::SetToNoImage));
    assert_eq!(*m.image_texture(), None);
    assert!(!m.should_sleep());
}

#[test]
fn update_directory_failure_is_surfaced() {
    let mut m = manager_over(&[("/d/a.png", "a.png")]);
    let r = m.update_directory(Err(ErrorKind::Io));
    match r {
        Err(e) => assert_eq!(e.kind(), ErrorKind::Io),
        Ok(_) => panic!("enumeration failure must surface"),
    }
    // the previous listing is untouched
    assert_eq!(m.current_filename().unwrap(), "a.png");
}

#[test]
fn host_info_sizes_budget_and_workers() {
    let m = PlaybackManager::new_with_host_info(Some(800_000), Some(8));
    // 800000 KiB / 8, in bytes
    assert_eq!(m.cache_budget(), 102_400_000);
    assert_eq!(m.num_workers(), 4);
    let m2 = PlaybackManager::new_with_host_info(None, Some(1));
    assert_eq!(m2.cache_budget(), 500_000_000);
    assert_eq!(m2.num_workers(), 2);
    let m3 = PlaybackManager::new_with_host_info(Some(16), Some(3));
    assert_eq!(m3.cache_budget(), 2048);
    assert_eq!(m3.num_workers(), 3);
    let m4 = PlaybackManager::new_with_host_info(Some(0), None);
    assert_eq!(m4.cache_budget(), 0);
    assert_eq!(m4.num_workers(), 4);
}
