use shufflepic::cache::{settle_cycle_or_empty, CacheState, CachedImage, Settle};
use shufflepic::decoder::DecoderPool;
use shufflepic::playback::PlaybackState;

fn p(s: &str) -> String {
    s.to_string()
}

fn slot(path: &str, vram_size: usize) -> CachedImage {
    CachedImage { path: p(path), pixels: None, texture: None, width: 1, height: 1, vram_size }
}

fn texture(ctx: &egui::Context, name: &str) -> egui::TextureHandle {
    let color = egui::ColorImage::from_rgba_unmultiplied([1, 1], &[255, 255, 255, 255]);
    ctx.load_texture(name, color, egui::TextureOptions::LINEAR)
}

#[test]
fn settle_cycle_boundary_on_tail() {
    let (mut decoder, _workers) = DecoderPool::new();
    let mut pb = PlaybackState::from_restored(vec![p("a"), p("b"), p("c")], 3, 0, Vec::new());
    let mut cache = CacheState::new();
    let s = settle_cycle_or_empty(&mut pb, &mut cache, &mut decoder);
    assert_eq!(s, Settle::CycleBoundary);
    assert_eq!(pb.cursor, 0);
    assert_eq!(pb.cycle_count, 1);
    assert_eq!(pb.play_order.len(), 3, "set preserved on boundary");
}

#[test]
fn settle_empty_runs_once() {
    let (mut decoder, _workers) = DecoderPool::new();
    let mut pb = PlaybackState::from_restored(Vec::new(), 0, 0, Vec::new());
    let mut cache = CacheState::new();
    assert_eq!(settle_cycle_or_empty(&mut pb, &mut cache, &mut decoder), Settle::Empty);
    assert!(pb.empty_state_active);
    assert_eq!(
        settle_cycle_or_empty(&mut pb, &mut cache, &mut decoder),
        Settle::Unchanged,
        "空状態継続フレームは再処理しない"
    );
}

#[test]
fn settle_leaves_a_cycle_that_goes_on() {
    let (mut decoder, workers) = DecoderPool::new();
    let mut pb = PlaybackState::from_restored(vec![p("a"), p("b")], 1, 3, Vec::new());
    pb.empty_state_active = true;
    let mut cache = CacheState::new();
    let s = settle_cycle_or_empty(&mut pb, &mut cache, &mut decoder);
    assert_eq!(s, Settle::Unchanged);
    assert_eq!(pb.cursor, 1);
    assert_eq!(pb.cycle_count, 3);
    assert!(!pb.empty_state_active);
    assert_eq!(cache.epoch, 0);
    assert_eq!(workers.current_epoch.load(std::sync::atomic::Ordering::SeqCst), 0);
}

#[test]
fn settle_waits_for_the_window() {
    let (mut decoder, _workers) = DecoderPool::new();
    let mut pb = PlaybackState::from_restored(vec![p("a")], 1, 0, Vec::new());
    let mut cache = CacheState::new();
    cache.window.push_back(slot("a", 4));
    let s = settle_cycle_or_empty(&mut pb, &mut cache, &mut decoder);
    assert_eq!(s, Settle::Unchanged);
}

#[test]
fn new_cycle_keeps_last_pictures_from_the_front() {
    let (mut decoder, _workers) = DecoderPool::new();
    let order: Vec<String> = (0..8).map(|i| p(&format!("{i}"))).collect();
    let last = vec![p("6"), p("7")];
    for _ in 0..50 {
        let mut pb = PlaybackState::from_restored(order.clone(), 8, u32::MAX, last.clone());
        let mut cache = CacheState::new();
        let s = settle_cycle_or_empty(&mut pb, &mut cache, &mut decoder);
        assert_eq!(s, Settle::CycleBoundary);
        assert!(!last.contains(&pb.play_order[0]));
        assert!(!last.contains(&pb.play_order[1]));
        assert_eq!(pb.cycle_count, 0, "the count of cycles wraps");
    }
}

#[test]
fn empty_state_drops_the_window() {
    let ctx = egui::Context::default();
    let (mut decoder, workers) = DecoderPool::new();
    let mut pb = PlaybackState::from_restored(Vec::new(), 5, 0, Vec::new());
    let mut cache = CacheState::new();
    let mut image = slot("a", 10);
    image.texture = Some(texture(&ctx, "a"));
    cache.window.push_back(image);
    cache.window.push_back(slot("b", 20));
    cache.current_vram = 30;
    cache.preload_blocked_by_vram = true;
    let s = settle_cycle_or_empty(&mut pb, &mut cache, &mut decoder);
    assert_eq!(s, Settle::Empty);
    assert_eq!(pb.cursor, 0);
    assert!(cache.window.is_empty());
    assert_eq!(cache.current_vram, 0);
    assert!(!cache.preload_blocked_by_vram);
    assert_eq!(cache.pending_free.len(), 1, "a texture is freed with the next frame");
    assert_eq!(cache.epoch, 1);
    assert_eq!(workers.current_epoch.load(std::sync::atomic::Ordering::SeqCst), 1);
}

#[test]
fn evict_front_takes_the_first() {
    let mut cache = CacheState::new();
    cache.window.push_back(slot("a", 10));
    cache.window.push_back(slot("b", 20));
    cache.current_vram = 30;
    assert_eq!(cache.evict_front(), Some(p("a")));
    assert_eq!(cache.current_vram, 20);
    assert_eq!(cache.window.len(), 1);
    assert_eq!(cache.evict_front(), Some(p("b")));
    assert_eq!(cache.evict_front(), None);
    assert_eq!(cache.current_vram, 0);
}

#[test]
fn evict_at_takes_one_from_the_middle() {
    let mut cache = CacheState::new();
    for (path, bytes) in [("a", 1), ("b", 2), ("c", 4)] {
        cache.window.push_back(slot(path, bytes));
    }
    cache.current_vram = 7;
    cache.evict_at(1);
    assert_eq!(cache.current_vram, 5);
    assert_eq!(cache.window[0].path, "a");
    assert_eq!(cache.window[1].path, "c");
    cache.evict_at(9);
    assert_eq!(cache.window.len(), 2);
}

#[test]
fn texture_memory_does_not_go_below_zero() {
    let mut cache = CacheState::new();
    cache.window.push_back(slot("a", 10));
    cache.current_vram = 3;
    cache.evict_front();
    assert_eq!(cache.current_vram, 0);
}

#[test]
fn epoch_wraps() {
    let (mut decoder, workers) = DecoderPool::new();
    let mut cache = CacheState::new();
    cache.epoch = u64::MAX;
    cache.ready_bytes = 5;
    cache.inflight.insert(p("x"));
    cache.bump_epoch(&mut decoder);
    assert_eq!(cache.epoch, 0);
    assert_eq!(cache.ready_bytes, 0);
    assert!(!cache.inflight.contains("x"));
    cache.bump_epoch(&mut decoder);
    assert_eq!(workers.current_epoch.load(std::sync::atomic::Ordering::SeqCst), 1);
}

#[test]
fn default_cache_is_empty() {
    let cache = CacheState::default();
    assert!(cache.window.is_empty());
    assert_eq!(cache.ready.len(), 0);
    assert_eq!(cache.epoch, 0);
    assert!(cache.pending_free.is_empty());
}
