use shufflepic::cache::{CacheState, CachedImage};
use shufflepic::decoder::{DecodeOutcome, DecodeRequest, DecodeResult, DecoderPool, WorkerEnds};
use shufflepic::image_loader::{
    decode_color, judge_attempt, DecodedImage, FileFingerprint, RgbaPixels,
};
use shufflepic::playback::PlaybackState;
use shufflepic::refill::{
    can_refill, decide_ask, handle_decode_fail, issue_requests, note_request, receive_results,
    refill_window, remove_path, Arrival, Ask, Wanted,
};
use shufflepic::{OVERSIZED_MAX_SIDE, VRAM_LIMIT};
use std::sync::atomic::Ordering;

fn p(s: &str) -> String {
    s.to_string()
}

fn order(n: usize) -> Vec<String> {
    (0..n).map(|i| format!("v{i}.png")).collect()
}

fn playback(order: Vec<String>) -> PlaybackState {
    PlaybackState::from_restored(order, 0, 0, Vec::new())
}

fn file(len: u64) -> Option<FileFingerprint> {
    Some(FileFingerprint { len, modified: Some(1) })
}

fn image(side: u32) -> DecodedImage {
    let bytes = [7, 8, 9, 255].repeat((side * side) as usize);
    let pixels = RgbaPixels { width: side, height: side, bytes };
    match judge_attempt(Some((side, side)), Some(pixels), true) {
        Ok(image) => image,
        Err(e) => panic!("{e:?}"),
    }
}

fn result(path: &str, epoch: u64, outcome: DecodeOutcome) -> DecodeResult {
    DecodeResult { path: p(path), epoch, fingerprint: file(1), outcome }
}

fn arrive(path: &str, epoch: u64, outcome: DecodeOutcome) -> Arrival {
    Arrival { result: result(path, epoch, outcome), current: file(1) }
}

/// Answers every request in the queues.
fn work(workers: &WorkerEnds, answer: &dyn Fn(&DecodeRequest) -> DecodeOutcome) {
    loop {
        let request = match workers.rx_priority.try_recv() {
            Ok(request) => request,
            Err(_) => match workers.rx_prefetch.try_recv() {
                Ok(request) => request,
                Err(_) => return,
            },
        };
        if !request.is_current(workers.current_epoch.load(Ordering::SeqCst)) {
            continue;
        }
        let outcome = answer(&request);
        assert!(workers.tx_res.try_send(request.answer(outcome)).is_ok());
    }
}

/// One refill of a frame, with every file as it was.
fn frame(
    pb: &mut PlaybackState,
    cache: &mut CacheState,
    decoder: &mut DecoderPool,
    ov: &mut Vec<String>,
) -> bool {
    let arrivals: Vec<Arrival> = receive_results(decoder)
        .into_iter()
        .map(|result| Arrival { result, current: file(1) })
        .collect();
    assert!(can_refill(pb, cache, 2, &arrivals));
    let (changed, mut wanted) = refill_window(pb, cache, decoder, 2, arrivals, ov);
    for want in wanted.iter_mut() {
        want.fingerprint = file(1);
    }
    issue_requests(cache, decoder, wanted);
    changed
}

#[test]
fn refill_fills_window_async_contiguously() {
    let mut pb = playback(order(4));
    let mut cache = CacheState::new();
    let (mut decoder, workers) = DecoderPool::new();
    let mut ov = Vec::new();

    let mut filled = false;
    for _ in 0..400 {
        frame(&mut pb, &mut cache, &mut decoder, &mut ov);
        if cache.window.len() >= 2 {
            filled = true;
            break;
        }
        work(&workers, &|_| DecodeOutcome::Decoded(image(16)));
    }
    assert!(filled, "window should fill via async decode");
    for i in 0..cache.window.len() {
        assert_eq!(
            cache.window[i].path,
            pb.play_order[pb.cursor + i],
            "window is a contiguous mirror"
        );
    }
    assert!(ov.is_empty(), "small images are not oversized");
}

#[test]
fn refill_detects_oversized() {
    let big = p("big.png");
    let side = OVERSIZED_MAX_SIDE + 2;
    let mut pb = playback(vec![big.clone()]);
    let mut cache = CacheState::new();
    let (mut decoder, workers) = DecoderPool::new();
    let mut ov = Vec::new();

    let mut found = false;
    for _ in 0..400 {
        frame(&mut pb, &mut cache, &mut decoder, &mut ov);
        if !ov.is_empty() {
            found = true;
            break;
        }
        work(&workers, &|_| DecodeOutcome::from(decode_color("big.png", Some((side, 1)), None, true)));
    }
    assert!(found, "oversized image must be reported");
    assert_eq!(ov[0], big);
    assert!(!pb.play_order.contains(&big), "oversized removed from play_order");
}

#[test]
fn whole_order_is_filled_and_bounded() {
    let mut pb = playback(order(20));
    let mut cache = CacheState::new();
    let (mut decoder, workers) = DecoderPool::new();
    let mut ov = Vec::new();
    for _ in 0..50 {
        frame(&mut pb, &mut cache, &mut decoder, &mut ov);
        assert!(cache.ready.len() + cache.inflight.len() <= 8, "within the readahead");
        let sum: usize = cache.window.iter().map(|c| c.vram_size).sum();
        assert_eq!(sum, cache.current_vram);
        work(&workers, &|_| DecodeOutcome::Decoded(image(4)));
    }
    assert_eq!(cache.window.len(), 8);
    assert_eq!(cache.current_vram, 8 * 64);
    assert_eq!(cache.ready_bytes, 0);
    for i in 0..8 {
        assert_eq!(cache.window[i].path, format!("v{i}.png"));
        assert!(cache.window[i].pixels.is_some());
    }
}

#[test]
fn result_of_another_epoch_is_ignored() {
    let mut pb = playback(order(1));
    let mut cache = CacheState::new();
    let (mut decoder, _workers) = DecoderPool::new();
    cache.epoch = 5;
    cache.inflight.insert(p("v0.png"));
    let stale = vec![arrive("v0.png", 4, DecodeOutcome::Decoded(image(2)))];
    let (changed, wanted) =
        refill_window(&mut pb, &mut cache, &mut decoder, 2, stale, &mut Vec::new());
    assert!(!changed);
    assert!(cache.window.is_empty());
    assert!(cache.inflight.contains("v0.png"));
    assert!(wanted.is_empty());
}

#[test]
fn result_for_a_changed_file_is_asked_for_again() {
    let mut pb = playback(order(1));
    let mut cache = CacheState::new();
    let (mut decoder, _workers) = DecoderPool::new();
    cache.inflight.insert(p("v0.png"));
    let outdated = vec![Arrival {
        result: result("v0.png", 0, DecodeOutcome::Decoded(image(2))),
        current: file(2),
    }];
    let (changed, wanted) =
        refill_window(&mut pb, &mut cache, &mut decoder, 2, outdated, &mut Vec::new());
    assert!(!changed);
    assert!(cache.window.is_empty());
    assert_eq!(wanted.len(), 1);
    assert_eq!(wanted[0].path, "v0.png");
    assert!(wanted[0].is_display);
}

#[test]
fn failing_picture_leaves_at_the_third_time() {
    let mut pb = playback(order(3));
    let mut cache = CacheState::new();
    let (mut decoder, _workers) = DecoderPool::new();
    for round in 1..=3 {
        cache.inflight.insert(p("v0.png"));
        let failed = vec![arrive("v0.png", cache.epoch, DecodeOutcome::Failed)];
        let (changed, _) =
            refill_window(&mut pb, &mut cache, &mut decoder, 2, failed, &mut Vec::new());
        assert!(changed);
        assert_eq!(cache.epoch, round);
        if round < 3 {
            assert_eq!(pb.play_order, vec![p("v1.png"), p("v2.png"), p("v0.png")]);
        }
    }
    assert_eq!(pb.play_order, vec![p("v1.png"), p("v2.png")]);
}

#[test]
fn success_forgets_failures() {
    let mut pb = playback(order(2));
    let mut cache = CacheState::new();
    let (mut decoder, _workers) = DecoderPool::new();
    handle_decode_fail(&mut pb, &p("v0.png"));
    handle_decode_fail(&mut pb, &p("v0.png"));
    assert_eq!(pb.fail_counts.get("v0.png"), Some(&2));
    cache.inflight.insert(p("v0.png"));
    let ok = vec![arrive("v0.png", 0, DecodeOutcome::Decoded(image(1)))];
    refill_window(&mut pb, &mut cache, &mut decoder, 2, ok, &mut Vec::new());
    assert_eq!(pb.fail_counts.get("v0.png"), None);
}

#[test]
fn missing_picture_leaves_at_once() {
    let mut pb = playback(order(2));
    let mut cache = CacheState::new();
    let (mut decoder, workers) = DecoderPool::new();
    cache.preload_blocked_by_vram = true;
    let gone = vec![arrive("v0.png", 0, DecodeOutcome::Missing)];
    let (changed, _) = refill_window(&mut pb, &mut cache, &mut decoder, 2, gone, &mut Vec::new());
    assert!(changed);
    assert_eq!(pb.play_order, vec![p("v1.png")]);
    assert_eq!(cache.epoch, 1);
    assert!(!cache.preload_blocked_by_vram);
    assert_eq!(workers.current_epoch.load(Ordering::SeqCst), 1);
}

#[test]
fn preload_stops_at_the_texture_limit() {
    let mut pb = playback(order(4));
    let mut cache = CacheState::new();
    let (mut decoder, _workers) = DecoderPool::new();
    cache.window.push_back(CachedImage {
        path: p("v0.png"),
        pixels: None,
        texture: None,
        width: 1,
        height: 1,
        vram_size: VRAM_LIMIT,
    });
    cache.current_vram = VRAM_LIMIT;
    let arrivals = vec![
        arrive("v1.png", 0, DecodeOutcome::Decoded(image(1))),
        arrive("v2.png", 0, DecodeOutcome::Decoded(image(1))),
    ];
    assert!(can_refill(&pb, &cache, 2, &arrivals));
    refill_window(&mut pb, &mut cache, &mut decoder, 2, arrivals, &mut Vec::new());
    assert_eq!(cache.window.len(), 2, "a place on display is filled whatever it takes");
    assert_eq!(cache.current_vram, VRAM_LIMIT + 4);
    assert!(cache.preload_blocked_by_vram);
    assert_eq!(cache.ready.len(), 1);
    let want = Wanted { path: p("v3.png"), is_display: false, fingerprint: None };
    assert_eq!(decide_ask(&cache, &want), Ask::Stop);
}

#[test]
fn uploads_ahead_are_two_a_frame() {
    let mut pb = playback(order(8));
    let mut cache = CacheState::new();
    let (mut decoder, _workers) = DecoderPool::new();
    let arrivals: Vec<Arrival> = (0..7)
        .map(|i| arrive(&format!("v{i}.png"), 0, DecodeOutcome::Decoded(image(1))))
        .collect();
    refill_window(&mut pb, &mut cache, &mut decoder, 2, arrivals, &mut Vec::new());
    assert_eq!(cache.window.len(), 4, "two on display and two ahead");
    assert_eq!(cache.ready.len(), 3);
    refill_window(&mut pb, &mut cache, &mut decoder, 2, Vec::new(), &mut Vec::new());
    assert_eq!(cache.window.len(), 6);
}

#[test]
fn asking_is_bounded() {
    let mut cache = CacheState::new();
    let display = Wanted { path: p("a"), is_display: true, fingerprint: None };
    let ahead = Wanted { path: p("b"), is_display: false, fingerprint: None };
    assert_eq!(decide_ask(&cache, &ahead), Ask::Send);
    for i in 0..6 {
        cache.inflight.insert(format!("x{i}"));
    }
    assert_eq!(decide_ask(&cache, &ahead), Ask::Stop);
    assert_eq!(decide_ask(&cache, &display), Ask::Send);
    cache.inflight.insert(p("a"));
    assert_eq!(decide_ask(&cache, &display), Ask::Skip);
    let mut cache = CacheState::new();
    for i in 0..6 {
        cache.ready.insert(format!("x{i}"), image(1));
    }
    assert_eq!(decide_ask(&cache, &ahead), Ask::Stop);
    cache.ready.insert(p("b"), image(1));
    assert_eq!(decide_ask(&cache, &ahead), Ask::Skip);
}

#[test]
fn full_display_queue_ends_the_asking() {
    let mut cache = CacheState::new();
    assert!(note_request(&mut cache, p("a"), true, true));
    assert!(cache.inflight.contains("a"));
    assert!(!note_request(&mut cache, p("b"), true, false));
    assert!(note_request(&mut cache, p("c"), false, false));
    assert!(!cache.inflight.contains("b"));
    assert!(!cache.inflight.contains("c"));
}

#[test]
fn requests_carry_the_epoch() {
    let mut cache = CacheState::new();
    let (mut decoder, workers) = DecoderPool::new();
    cache.bump_epoch(&mut decoder);
    let wanted = vec![
        Wanted { path: p("a"), is_display: true, fingerprint: file(3) },
        Wanted { path: p("b"), is_display: false, fingerprint: None },
    ];
    issue_requests(&mut cache, &mut decoder, wanted);
    let a = workers.rx_priority.try_recv().unwrap();
    assert_eq!((a.path.as_str(), a.epoch, a.fingerprint), ("a", 1, file(3)));
    let b = workers.rx_prefetch.try_recv().unwrap();
    assert_eq!((b.path.as_str(), b.epoch), ("b", 1));
    assert!(b.is_current(workers.current_epoch.load(Ordering::SeqCst)));
    assert!(cache.inflight.contains("a") && cache.inflight.contains("b"));
}

#[test]
fn wanted_pictures_come_in_order() {
    let mut pb = playback(order(12));
    pb.cursor = 1;
    let mut cache = CacheState::new();
    let (mut decoder, _workers) = DecoderPool::new();
    cache.inflight.insert(p("v2.png"));
    let (_, wanted) =
        refill_window(&mut pb, &mut cache, &mut decoder, 2, Vec::new(), &mut Vec::new());
    let paths: Vec<&str> = wanted.iter().map(|w| w.path.as_str()).collect();
    assert_eq!(
        paths,
        ["v1.png", "v3.png", "v4.png", "v5.png", "v6.png", "v7.png", "v8.png"]
    );
    assert!(wanted[0].is_display);
    assert!(!wanted[1].is_display);
}

#[test]
fn at_most_four_results_a_frame() {
    let (mut decoder, workers) = DecoderPool::new();
    for i in 0..6 {
        let r = result(&format!("{i}"), 0, DecodeOutcome::Failed);
        assert!(workers.tx_res.try_send(r).is_ok());
    }
    assert_eq!(receive_results(&mut decoder).len(), 4);
    let rest = receive_results(&mut decoder);
    assert_eq!(rest.len(), 2);
    assert_eq!(rest[0].path, "4");
    assert_eq!(rest[1].path, "5");
    assert!(receive_results(&mut decoder).is_empty());
}

#[test]
fn integers_that_do_not_hold_the_sum_are_refused() {
    let pb = playback(order(1));
    let mut cache = CacheState::new();
    let one = vec![arrive("v0.png", 0, DecodeOutcome::Decoded(image(1)))];
    cache.current_vram = usize::MAX - 4;
    assert!(can_refill(&pb, &cache, 2, &one));
    cache.current_vram = usize::MAX - 3;
    assert!(!can_refill(&pb, &cache, 2, &one));
}

#[test]
fn path_is_removed_once() {
    let mut pb = playback(vec![p("a"), p("b"), p("a")]);
    assert!(remove_path(&mut pb, &p("a")));
    assert_eq!(pb.play_order, vec![p("b"), p("a")]);
    assert!(!remove_path(&mut pb, &p("x")));
}

#[test]
fn second_picture_of_a_path_replaces_the_first() {
    let mut pb = playback(order(3));
    let mut cache = CacheState::new();
    let (mut decoder, _workers) = DecoderPool::new();
    let arrivals = vec![
        arrive("v2.png", 0, DecodeOutcome::Decoded(image(3))),
        arrive("v2.png", 0, DecodeOutcome::Decoded(image(1))),
    ];
    refill_window(&mut pb, &mut cache, &mut decoder, 2, arrivals, &mut Vec::new());
    assert_eq!(cache.ready.len(), 1);
    assert_eq!(cache.ready_bytes, 4, "no bytes are counted twice");
}

#[test]
fn oversized_pictures_have_left_the_order() {
    let mut pb = playback(order(4));
    let mut cache = CacheState::new();
    let (mut decoder, _workers) = DecoderPool::new();
    for i in 0..3 {
        cache.inflight.insert(format!("v{i}.png"));
    }
    let arrivals = vec![
        arrive("v0.png", 0, DecodeOutcome::Oversized { w: 20_000, h: 1 }),
        arrive("v1.png", 0, DecodeOutcome::Failed),
        arrive("v2.png", 0, DecodeOutcome::Oversized { w: 1, h: 20_000 }),
    ];
    let mut out = vec![p("earlier")];
    refill_window(&mut pb, &mut cache, &mut decoder, 2, arrivals, &mut out);
    assert_eq!(out, vec![p("earlier"), p("v0.png"), p("v2.png")]);
    assert_eq!(pb.play_order, vec![p("v3.png"), p("v1.png")]);
}
