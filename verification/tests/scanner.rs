use shufflepic::cache::{CacheState, CachedImage};
use shufflepic::playback::{PendingFile, PlaybackState};
use shufflepic::scanner::{rescan, FileStat, ScannedFile, ScannerState};

fn p(s: &str) -> String {
    s.to_string()
}

fn stat(size: u64, modified: i128) -> Option<FileStat> {
    Some(FileStat { size, modified })
}

fn found(paths: &[&str]) -> Vec<ScannedFile> {
    paths.iter().map(|s| ScannedFile { path: p(s), stat: stat(1, 1) }).collect()
}

fn slot(path: &str) -> CachedImage {
    let color = egui::ColorImage::from_rgba_unmultiplied([1, 1], &[255, 255, 255, 255]);
    CachedImage {
        path: p(path),
        pixels: Some(color),
        texture: None,
        width: 1,
        height: 1,
        vram_size: 4,
    }
}

fn cache(window: &[&str]) -> CacheState {
    let mut cache = CacheState::new();
    for path in window {
        cache.window.push_back(slot(path));
        cache.current_vram += 4;
    }
    cache
}

fn playback(order: &[&str], cursor: usize) -> PlaybackState {
    let order = order.iter().map(|s| p(s)).collect();
    PlaybackState::from_restored(order, cursor, 0, Vec::new())
}

#[test]
fn rescan_one_image_mode_removes_vanished_second() {
    let mut cache = cache(&["a.png", "b.png"]);
    let mut pb = playback(&["a.png", "b.png"], 0);
    let changed = rescan(&mut pb, &mut cache, &found(&["a.png"]), &Vec::new(), 1);

    assert!(changed);
    assert!(
        !pb.play_order.contains(&p("b.png")),
        "vanished second image removed from play_order"
    );
    assert_eq!(cache.window.len(), 1, "window[1] evicted");
    assert_eq!(cache.window[0].path, "a.png");
}

#[test]
fn pictures_on_display_stay() {
    let mut cache = cache(&["a", "b", "c"]);
    let mut pb = playback(&["x", "a", "b", "c", "d"], 1);
    let changed = rescan(&mut pb, &mut cache, &found(&["d"]), &Vec::new(), 2);
    assert!(changed);
    assert_eq!(pb.play_order, vec![p("x"), p("a"), p("b"), p("d")]);
    assert_eq!(cache.window.len(), 2);
    assert_eq!(cache.current_vram, 8);
}

#[test]
fn count_of_zero_keeps_one_picture() {
    let mut cache = cache(&["a", "b"]);
    let mut pb = playback(&["a", "b"], 0);
    assert!(rescan(&mut pb, &mut cache, &found(&[]), &Vec::new(), 0));
    assert_eq!(pb.play_order, vec![p("a")]);
    assert_eq!(cache.window.len(), 1);
}

#[test]
fn unchanged_folder_changes_nothing() {
    let mut cache = cache(&["a"]);
    cache.preload_blocked_by_vram = true;
    let mut pb = playback(&["a", "b", "c"], 0);
    assert!(!rescan(&mut pb, &mut cache, &found(&["c", "b", "a"]), &Vec::new(), 2));
    assert_eq!(pb.play_order, vec![p("a"), p("b"), p("c")]);
    assert!(cache.preload_blocked_by_vram);
}

#[test]
fn pictures_behind_the_window_leave_when_gone() {
    let mut cache = cache(&["a"]);
    cache.preload_blocked_by_vram = true;
    let mut pb = playback(&["a", "b", "c", "d"], 0);
    assert!(rescan(&mut pb, &mut cache, &found(&["a", "d"]), &Vec::new(), 2));
    assert_eq!(pb.play_order, vec![p("a"), p("d")]);
    assert!(!cache.preload_blocked_by_vram);
}

#[test]
fn new_file_joins_at_the_second_look() {
    let mut cache = cache(&[]);
    let mut pb = playback(&["a"], 0);
    assert!(!rescan(&mut pb, &mut cache, &found(&["a", "n"]), &Vec::new(), 2));
    assert_eq!(pb.play_order, vec![p("a")]);
    assert_eq!(pb.pending.len(), 1);
    assert_eq!(pb.pending[0].path, "n");
    assert_eq!((pb.pending[0].size, pb.pending[0].modified), (1, 1));

    // It is still being written.
    let stats = vec![stat(2, 5)];
    assert!(!rescan(&mut pb, &mut cache, &found(&["a", "n"]), &stats, 2));
    assert_eq!((pb.pending[0].size, pb.pending[0].modified), (2, 5));

    assert!(rescan(&mut pb, &mut cache, &found(&["a", "n"]), &stats, 2));
    assert!(pb.pending.is_empty());
    assert_eq!(pb.play_order.len(), 2);
    assert!(pb.play_order.contains(&p("n")));
}

#[test]
fn waiting_file_that_is_gone_is_forgotten() {
    let mut cache = cache(&[]);
    let mut pb = playback(&["a"], 0);
    pb.pending.push(PendingFile { path: p("n"), size: 1, modified: 1 });
    pb.pending.push(PendingFile { path: p("m"), size: 1, modified: 1 });
    let stats = vec![None, stat(9, 9)];
    assert!(!rescan(&mut pb, &mut cache, &found(&["a"]), &stats, 2));
    assert!(pb.pending.is_empty());
    assert_eq!(pb.play_order, vec![p("a")]);
}

#[test]
fn settled_file_outside_the_folder_does_not_stay() {
    let mut cache = cache(&[]);
    let mut pb = playback(&["a"], 0);
    pb.pending.push(PendingFile { path: p("n"), size: 1, modified: 1 });
    assert!(rescan(&mut pb, &mut cache, &found(&["a"]), &vec![stat(1, 1)], 2));
    assert_eq!(pb.play_order, vec![p("a")]);
}

#[test]
fn file_that_cannot_be_looked_at_does_not_wait() {
    let mut cache = cache(&[]);
    let mut pb = playback(&[], 0);
    let files = vec![ScannedFile { path: p("n"), stat: None }];
    assert!(!rescan(&mut pb, &mut cache, &files, &Vec::new(), 2));
    assert!(pb.pending.is_empty());
}

#[test]
fn joining_shuffles_only_behind_the_window() {
    let names: Vec<String> = (0..100).map(|i| format!("{i:03}")).collect();
    let order: Vec<&str> = names.iter().map(|s| s.as_str()).collect();
    let mut cache = cache(&order[3..6]);
    let mut pb = playback(&order, 3);
    pb.pending.push(PendingFile { path: p("new"), size: 1, modified: 1 });
    let mut all = order.clone();
    all.push("new");
    assert!(rescan(&mut pb, &mut cache, &found(&all), &vec![stat(1, 1)], 2));
    assert_eq!(pb.play_order[..6], names[..6]);
    assert_ne!(pb.play_order[6..100], names[6..100]);
    assert_eq!(pb.play_order.len(), 101);
    for name in all {
        assert_eq!(pb.play_order.iter().filter(|x| x.as_str() == name).count(), 1);
    }
}

#[test]
fn scanner_starts_at_now() {
    let s = ScannerState::new(10, 3);
    assert_eq!(s.interval, 10);
    assert_eq!(s.last_rescan, 3);
}
