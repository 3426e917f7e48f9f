use image_playback::error::ErrorKind;
use image_playback::fs_path::FsPath;
use image_playback::cache::{ImageCache, LoadOutcome, PrefetchResult, UploadedImage};

fn file(i: usize) -> FsPath {
    FsPath::with_name(format!("/pics/{:02}.png", i), format!("{:02}.png", i))
}

fn listing(n: usize) -> Vec<FsPath> {
    (0..n).map(file).collect()
}

fn ok_result(i: usize, tex: u64, cost: u64) -> PrefetchResult {
    PrefetchResult { path: format!("/pics/{:02}.png", i), result: Ok(UploadedImage { tex, cost }) }
}

fn cache_over(n: usize, budget: u64) -> ImageCache {
    let mut c = ImageCache::new(budget, 2);
    c.update_directory(Ok(listing(n))).unwrap();
    c
}

#[test]
fn jump_wraps_both_directions() {
    let mut c = cache_over(3, 1000);
    assert_eq!(c.position(), 0);
    c.load_jump(-1);
    assert_eq!(c.position(), 2);
    c.load_jump(4);
    assert_eq!(c.position(), 0);
    c.load_jump(-7);
    assert_eq!(c.position(), 2);
    c.load_next();
    assert_eq!(c.position(), 0);
    c.load_prev();
    assert_eq!(c.position(), 2);
}

#[test]
fn jump_in_empty_directory_fails_on_load() {
    let mut c = ImageCache::new(1000, 2);
    let out = c.load_jump(5);
    assert!(matches!(out, LoadOutcome::Failed(ErrorKind::NotFound)));
    assert_eq!(c.listing_len(), 0);
}

#[test]
fn load_specific_absent_path_is_not_found() {
    let mut c = cache_over(3, 1000);
    let elsewhere = FsPath::with_name(String::from("/elsewhere/x.png"), String::from("x.png"));
    let out = c.load_specific(&elsewhere);
    assert!(matches!(out, LoadOutcome::Failed(ErrorKind::NotFound)));
    assert_eq!(c.position(), 0);
}

#[test]
fn cached_target_returned_without_decode() {
    let mut c = cache_over(3, 1000);
    // decode and admit entry 1 synchronously
    let out = c.load_next();
    let target = match out {
        LoadOutcome::NeedsDecode(p) => p,
        _ => panic!("expected a cache miss"),
    };
    let (tex, name) = c.complete_load(&target, Ok(UploadedImage { tex: 42, cost: 5 })).unwrap();
    assert_eq!(tex, 42);
    assert_eq!(name, "01.png");
    // navigating back to it is now a hit with the same texture
    c.load_prev();
    let out2 = c.load_next();
    match out2 {
        LoadOutcome::Loaded(t, n) => {
            assert_eq!(t, 42);
            assert_eq!(n, "01.png");
        },
        _ => panic!("expected a cache hit"),
    }
}

#[test]
fn budget_never_exceeded_after_prefetch() {
    let mut c = cache_over(12, 10);
    let batch: Vec<PrefetchResult> = (2..12).map(|i| ok_result(i, i as u64, 1)).collect();
    c.process_prefetched(&batch).unwrap();
    assert_eq!(c.cached_bytes(), 10);
    assert!(c.cached_bytes() <= c.cache_budget());
    // an image larger than the whole budget is not admitted by prefetch
    let big = vec![ok_result(1, 99, 11)];
    c.process_prefetched(&big).unwrap();
    assert!(!c.contains_path(&String::from("/pics/01.png")));
    assert!(c.cached_bytes() <= c.cache_budget());
}

#[test]
fn eviction_takes_the_farthest_entries_first() {
    let mut c = cache_over(12, 10);
    // ten one-byte entries at indices 2..12 exhaust the budget
    let batch: Vec<PrefetchResult> = (2..12).map(|i| ok_result(i, i as u64, 1)).collect();
    c.process_prefetched(&batch).unwrap();
    assert_eq!(c.entry_count(), 10);
    // current position is 0; two new near-current entries arrive
    let near: Vec<PrefetchResult> = vec![ok_result(0, 100, 1), ok_result(1, 101, 1)];
    c.process_prefetched(&near).unwrap();
    assert_eq!(c.cached_bytes(), 10);
    // the two farthest entries (indices 11 and 10) were evicted
    assert!(!c.contains_path(&String::from("/pics/11.png")));
    assert!(!c.contains_path(&String::from("/pics/10.png")));
    assert!(c.contains_path(&String::from("/pics/09.png")));
    assert!(c.contains_path(&String::from("/pics/00.png")));
    assert!(c.contains_path(&String::from("/pics/01.png")));
}

#[test]
fn displayed_entry_survives_eviction() {
    let mut c = cache_over(4, 10);
    // display entry 0, cost 6
    let out = c.load_jump(0);
    let target = match out {
        LoadOutcome::NeedsDecode(p) => p,
        _ => panic!("expected a cache miss"),
    };
    c.complete_load(&target, Ok(UploadedImage { tex: 1, cost: 6 })).unwrap();
    // prefetch entry 1 (cost 3), then entry 2 (cost 4): room for entry 2
    // can only come from evicting entry 1, never the displayed entry 0
    c.process_prefetched(&vec![ok_result(1, 2, 3)]).unwrap();
    c.process_prefetched(&vec![ok_result(2, 3, 4)]).unwrap();
    assert!(c.contains_path(&String::from("/pics/00.png")));
    assert!(!c.contains_path(&String::from("/pics/01.png")));
    assert!(c.contains_path(&String::from("/pics/02.png")));
    assert_eq!(c.cached_bytes(), 10);
}

#[test]
fn prefetch_failure_is_isolated_and_reported() {
    let mut c = cache_over(4, 100);
    let batch = vec![
        PrefetchResult { path: String::from("/pics/01.png"), result: Err(ErrorKind::Upload) },
        ok_result(2, 5, 1),
    ];
    let r = c.process_prefetched(&batch);
    match r {
        Err(e) => assert_eq!(e.kind(), ErrorKind::Upload),
        Ok(_) => panic!("the failed entry must be reported"),
    }
    // the healthy entry of the same batch was still admitted
    assert!(c.contains_path(&String::from("/pics/02.png")));
}

#[test]
fn stale_and_duplicate_prefetches_discarded_silently() {
    let mut c = cache_over(3, 100);
    let batch = vec![
        PrefetchResult { path: String::from("/gone/zz.png"), result: Ok(UploadedImage { tex: 9, cost: 1 }) },
        ok_result(1, 5, 1),
        ok_result(1, 6, 1),
    ];
    c.process_prefetched(&batch).unwrap();
    assert!(!c.contains_path(&String::from("/gone/zz.png")));
    assert_eq!(c.entry_count(), 1);
    // the first result for a path wins; the duplicate is discarded
    match c.load_specific(&file(1)) {
        LoadOutcome::Loaded(t, _) => assert_eq!(t, 5),
        _ => panic!("entry 1 must be cached"),
    }
}

#[test]
fn prefetch_requests_nearest_first_without_duplicates() {
    let mut c = cache_over(5, 100);
    let reqs = c.send_load_requests();
    let names: Vec<&str> = reqs.iter().map(|p| p.full().as_str()).collect();
    // offsets +1, -1, +2, -2 from position 0, nearest first
    assert_eq!(names, vec!["/pics/01.png", "/pics/04.png", "/pics/02.png", "/pics/03.png"]);
    // everything is now in flight: asking again submits nothing
    let reqs2 = c.send_load_requests();
    assert!(reqs2.is_empty());
    // in a two-entry directory the window collapses to the one neighbour
    let mut c2 = cache_over(2, 100);
    let reqs3 = c2.send_load_requests();
    let names3: Vec<&str> = reqs3.iter().map(|p| p.full().as_str()).collect();
    assert_eq!(names3, vec!["/pics/01.png"]);
}

#[test]
fn in_flight_paths_are_not_resubmitted_but_results_land() {
    let mut c = cache_over(5, 100);
    let reqs = c.send_load_requests();
    assert_eq!(reqs.len(), 4);
    // one decode completes; its mark is cleared and the entry admitted
    c.process_prefetched(&vec![ok_result(1, 7, 1)]).unwrap();
    assert!(c.contains_path(&String::from("/pics/01.png")));
    // only the completed path may be requested again (it is cached now,
    // so in fact nothing is)
    let reqs2 = c.send_load_requests();
    assert!(reqs2.is_empty());
}

#[test]
fn directory_refresh_keeps_position_and_prunes() {
    let mut c = cache_over(3, 100);
    // move to entry 1 and cache it
    let out = c.load_next();
    let target = match out {
        LoadOutcome::NeedsDecode(p) => p,
        _ => panic!("expected a cache miss"),
    };
    c.complete_load(&target, Ok(UploadedImage { tex: 4, cost: 1 })).unwrap();
    // entry 0 disappears from the directory
    let shrunk: Vec<FsPath> = vec![file(1), file(2)];
    c.update_directory(Ok(shrunk)).unwrap();
    assert_eq!(c.listing_len(), 2);
    assert_eq!(c.position(), 0);
    assert_eq!(c.current_filename().unwrap(), "01.png");
    assert!(c.contains_path(&String::from("/pics/01.png")));
    // a refresh that drops the current file resets to the first entry
    let other: Vec<FsPath> = vec![file(7), file(8)];
    c.update_directory(Ok(other)).unwrap();
    assert_eq!(c.position(), 0);
    assert_eq!(c.current_filename().unwrap(), "07.png");
    assert!(!c.contains_path(&String::from("/pics/01.png")));
    assert_eq!(c.entry_count(), 0);
}

#[test]
fn oversized_synchronous_load_still_succeeds() {
    let mut c = cache_over(2, 10);
    let out = c.load_jump(0);
    let target = match out {
        LoadOutcome::NeedsDecode(p) => p,
        _ => panic!("expected a cache miss"),
    };
    // the image alone exceeds the budget; navigation must still show it
    let (tex, name) = c.complete_load(&target, Ok(UploadedImage { tex: 9, cost: 25 })).unwrap();
    assert_eq!(tex, 9);
    assert_eq!(name, "00.png");
    assert_eq!(c.entry_count(), 1);
    assert_eq!(c.cached_bytes(), 25);
    // while it is displayed, nothing can push it out; prefetches that
    // cannot fit beside it are discarded
    c.process_prefetched(&vec![ok_result(1, 10, 1)]).unwrap();
    assert!(!c.contains_path(&String::from("/pics/01.png")));
    // loading the next image moves the display, and the oversized entry
    // finally makes way
    let out2 = c.load_next();
    let target2 = match out2 {
        LoadOutcome::NeedsDecode(p) => p,
        _ => panic!("expected a cache miss"),
    };
    c.complete_load(&target2, Ok(UploadedImage { tex: 10, cost: 1 })).unwrap();
    assert!(!c.contains_path(&String::from("/pics/00.png")));
    assert!(c.cached_bytes() <= c.cache_budget());
}
