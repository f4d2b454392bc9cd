use shufflepic::app::{
    DeleteAction, DeleteEvent, FolderAction, FolderEvent, OversizedAction, OversizedEvent,
    ShufflePicApp, NANOS_PER_SEC,
};
use shufflepic::cache::CachedImage;
use shufflepic::decoder::{DecoderPool, WorkerEnds};
use shufflepic::playback::PlaybackState;
use shufflepic::settings::SettingsState;
use std::sync::atomic::Ordering;

const NOW: u64 = 1_000 * NANOS_PER_SEC;

fn p(s: &str) -> String {
    s.to_string()
}

fn slot(path: &str) -> CachedImage {
    CachedImage { path: p(path), pixels: None, texture: None, width: 1, height: 1, vram_size: 4 }
}

fn show(order: &[&str], cursor: usize, window: usize) -> (ShufflePicApp, WorkerEnds) {
    let (decoder, workers) = DecoderPool::new();
    let settings = SettingsState::defaults(Some(p("/pics")));
    let paths = order.iter().map(|s| p(s)).collect();
    let playback = PlaybackState::from_restored(paths, cursor, 3, Vec::new());
    let mut app = ShufflePicApp::new(settings, playback, decoder, None, NOW);
    for path in &order[cursor..cursor + window] {
        app.cache.window.push_back(slot(path));
        app.cache.current_vram += 4;
    }
    (app, workers)
}

fn error(app: &ShufflePicApp) -> Option<&str> {
    app.error.as_ref().map(|(text, _)| text.as_str())
}

#[test]
fn new_slideshow_plays() {
    let (app, _w) = show(&["a"], 0, 0);
    assert!(app.playing);
    assert!(!app.halted && !app.fullscreen && !app.menu_open && !app.state_dirty);
    assert_eq!(app.last_advance, NOW);
    assert_eq!(app.scanner.interval, 10 * NANOS_PER_SEC);
    assert!(app.error.is_none());
    assert_eq!(app.interval(), 15 * NANOS_PER_SEC);
}

#[test]
fn message_lasts_four_seconds() {
    let (mut app, _w) = show(&["a"], 0, 0);
    app.set_error(p("oh"), NOW);
    assert_eq!(app.error, Some((p("oh"), NOW + 4 * NANOS_PER_SEC)));
}

#[test]
fn advance_goes_through_the_order() {
    let (mut app, _w) = show(&["a", "b", "c", "d", "e"], 1, 3);
    app.cache.preload_blocked_by_vram = true;
    app.advance();
    assert_eq!(app.playback.cursor, 3);
    assert_eq!(app.playback.last_shown, vec![p("b"), p("c")]);
    assert_eq!(app.cache.window.len(), 1);
    assert_eq!(app.cache.window[0].path, "d");
    assert_eq!(app.cache.current_vram, 4);
    assert!(!app.cache.preload_blocked_by_vram);
    assert_eq!(app.cache.epoch, 0, "an advance keeps what is decoded");
    app.advance();
    assert_eq!(app.playback.cursor, 4);
    assert_eq!(app.playback.last_shown, vec![p("d")]);
}

#[test]
fn advance_without_a_window_does_nothing() {
    let (mut app, _w) = show(&["a"], 0, 0);
    app.advance();
    assert_eq!(app.playback.cursor, 0);
    assert!(app.playback.last_shown.is_empty());
}

#[test]
fn one_cycle_shows_each_picture_once() {
    let names: Vec<String> = (0..9).map(|i| format!("n{i}")).collect();
    let order: Vec<&str> = names.iter().map(|s| s.as_str()).collect();
    let (mut app, _w) = show(&order, 0, 0);
    let mut seen: Vec<String> = Vec::new();
    while app.playback.cursor < 9 {
        let from = app.playback.cursor;
        for path in &order[from..std::cmp::min(from + 3, 9)] {
            app.cache.window.push_back(slot(path));
        }
        app.advance();
        seen.extend(app.playback.last_shown.iter().cloned());
        app.cache.window.clear();
    }
    assert_eq!(seen, names);
}

#[test]
fn deletion_takes_one_picture() {
    let (mut app, workers) = show(&["a", "b", "c", "d"], 1, 2);
    app.cache.preload_blocked_by_vram = true;
    let target = p("c");
    assert_eq!(app.do_delete_path(&target, DeleteEvent::Asked, NOW), DeleteAction::Prepare);
    let event = DeleteEvent::Prepared(Ok(()));
    assert_eq!(app.do_delete_path(&target, event, NOW), DeleteAction::Move);
    assert_eq!(app.playback.play_order.len(), 4);
    let event = DeleteEvent::Moved(Ok(()));
    assert_eq!(app.do_delete_path(&target, event, NOW), DeleteAction::Stop);
    assert_eq!(app.playback.play_order, vec![p("a"), p("b"), p("d")]);
    assert_eq!(app.playback.cursor, 1);
    assert_eq!(app.cache.window.len(), 1);
    assert_eq!(app.cache.window[0].path, "b");
    assert!(app.state_dirty);
    assert!(!app.cache.preload_blocked_by_vram);
    assert_eq!(app.cache.epoch, 1);
    assert_eq!(workers.current_epoch.load(Ordering::SeqCst), 1);
    assert!(app.error.is_none());
}

#[test]
fn failed_deletion_only_says_so() {
    let (mut app, _w) = show(&["a", "b"], 0, 2);
    let event = DeleteEvent::Moved(Err(p("denied")));
    assert_eq!(app.do_delete_path(&p("a"), event, NOW), DeleteAction::Stop);
    assert_eq!(error(&app), Some("削除に失敗しました: denied"));
    assert_eq!(app.playback.play_order.len(), 2);
    assert_eq!(app.cache.window.len(), 2);
    assert!(!app.state_dirty);
}

#[test]
fn deletion_of_a_picture_that_has_left_is_cancelled() {
    let (mut app, _w) = show(&["a", "b", "c"], 0, 1);
    assert_eq!(app.do_delete_path(&p("c"), DeleteEvent::Asked, NOW), DeleteAction::Prepare);
    let event = DeleteEvent::Prepared(Ok(()));
    assert_eq!(app.do_delete_path(&p("c"), event, NOW), DeleteAction::Stop);
    assert_eq!(error(&app), Some("対象画像が切り替わったため削除をキャンセルしました"));
    assert_eq!(app.playback.play_order.len(), 3);
}

#[test]
fn deletion_needs_its_folder() {
    let (mut app, _w) = show(&["a"], 0, 1);
    let event = DeleteEvent::Prepared(Err(p("no folder")));
    assert_eq!(app.do_delete_path(&p("a"), event, NOW), DeleteAction::Stop);
    assert_eq!(error(&app), Some("no folder"));
    assert_eq!(app.playback.play_order.len(), 1);
    app.settings.folder = None;
    app.error = None;
    assert_eq!(app.do_delete_path(&p("a"), DeleteEvent::Asked, NOW), DeleteAction::Stop);
    let event = DeleteEvent::Moved(Ok(()));
    assert_eq!(app.do_delete_path(&p("a"), event, NOW), DeleteAction::Stop);
    assert_eq!(app.playback.play_order.len(), 1);
    assert!(app.error.is_none());
}

#[test]
fn oversized_pictures_are_looked_at_again() {
    let (mut app, _w) = show(&["a"], 0, 0);
    let event = OversizedEvent::Sized(Some((10_001, 1)));
    assert_eq!(
        app.handle_oversized(&p("big"), event, NOW),
        (OversizedAction::Prepare, false)
    );
    let event = OversizedEvent::Sized(None);
    assert_eq!(app.handle_oversized(&p("big"), event, NOW), (OversizedAction::Next, false));
    assert_eq!(app.playback.play_order, vec![p("a")]);
}

#[test]
fn oversized_picture_is_moved_even_without_its_folder() {
    let (mut app, _w) = show(&["a"], 0, 0);
    let event = OversizedEvent::Prepared(Ok(()));
    assert_eq!(app.handle_oversized(&p("big"), event, NOW), (OversizedAction::Move, false));
    assert!(app.error.is_none());
    let event = OversizedEvent::Prepared(Err(p("no folder")));
    assert_eq!(app.handle_oversized(&p("big"), event, NOW), (OversizedAction::Move, false));
    assert_eq!(error(&app), Some("no folder"));
}

#[test]
fn oversized_picture_that_fits_goes_back() {
    let (mut app, _w) = show(&["a"], 0, 0);
    let event = OversizedEvent::Sized(Some((100, 100)));
    assert_eq!(app.handle_oversized(&p("big"), event, NOW), (OversizedAction::Next, true));
    assert_eq!(app.playback.play_order, vec![p("a"), p("big")]);
    app.finish_oversized(true);
    assert!(app.state_dirty);
    assert_eq!(app.cache.epoch, 1);
}

#[test]
fn oversized_picture_that_is_moved_stays_away() {
    let (mut app, _w) = show(&["a"], 0, 0);
    app.oversized_attempts.insert(p("big"), 3);
    assert_eq!(
        app.handle_oversized(&p("big"), OversizedEvent::Moved, NOW),
        (OversizedAction::Next, false)
    );
    assert_eq!(app.oversized_attempts.get("big"), None);
    assert_eq!(app.playback.play_order, vec![p("a")]);
    app.finish_oversized(false);
    assert!(!app.state_dirty);
    assert_eq!(app.cache.epoch, 0);
}

#[test]
fn slideshow_halts_after_five_failed_moves() {
    let (mut app, _w) = show(&["a"], 0, 0);
    for n in 1..=5 {
        let event =
            OversizedEvent::NotMoved { file_name: Some(p("big.png")), error: p("denied") };
        let (action, changed) = app.handle_oversized(&p("/pics/big.png"), event, NOW);
        assert!(changed);
        assert_eq!(action == OversizedAction::Next, n < 5);
        assert_eq!(action == OversizedAction::Stop, n == 5);
        assert_eq!(app.halted, n == 5);
        assert_eq!(app.playing, n < 5);
        if n < 5 {
            assert_eq!(app.oversized_attempts.get("/pics/big.png"), Some(&n));
            assert!(app.oversized_blocked_msg.is_none());
        }
        assert_eq!(app.playback.play_order.pop(), Some(p("/pics/big.png")));
    }
    assert_eq!(app.oversized_attempts.get("/pics/big.png"), None);
    let lines = [
        "退避できない画像があるため、スライドショーを停止しました。",
        "",
        "ファイル名: big.png",
        "場所: /pics/big.png",
        "原因: denied",
        "",
        "未表示の残りも表示できない画像の可能性が高いため停止します。",
        "この画像（および他の不適切な画像）を手動で処理してから、",
        "「⚙ 設定」でフォルダを選び直すか、アプリを再起動してください。",
    ];
    assert_eq!(app.oversized_blocked_msg, Some(lines.join("\n")));
}

#[test]
fn nameless_picture_is_named_by_its_path() {
    let (mut app, _w) = show(&[], 0, 0);
    app.oversized_attempts.insert(p("/"), u32::MAX);
    let event = OversizedEvent::NotMoved { file_name: None, error: p("e") };
    app.handle_oversized(&p("/"), event, NOW);
    assert!(app.oversized_blocked_msg.unwrap().contains("ファイル名: /\n場所: /\n原因: e\n"));
}

#[test]
fn same_folder_is_not_reset() {
    let (mut app, _w) = show(&["a"], 0, 1);
    assert_eq!(app.change_folder(FolderEvent::Compared(true), NOW), FolderAction::Stop);
    assert_eq!(app.change_folder(FolderEvent::Compared(false), NOW), FolderAction::Look);
    app.halted = true;
    assert_eq!(app.change_folder(FolderEvent::Compared(true), NOW), FolderAction::Look);
    app.halted = false;
    app.settings.folder = None;
    assert_eq!(app.change_folder(FolderEvent::Compared(true), NOW), FolderAction::Look);
}

#[test]
fn unusable_folder_changes_nothing_but_the_message() {
    let (mut app, _w) = show(&["a"], 0, 1);
    assert_eq!(app.change_folder(FolderEvent::Looked(false), NOW), FolderAction::Stop);
    assert_eq!(error(&app), Some("指定がフォルダではありません"));
    let event = FolderEvent::DeletePrepared(Err(p("d")));
    assert_eq!(app.change_folder(event, NOW), FolderAction::Stop);
    assert_eq!(error(&app), Some("d"));
    let event = FolderEvent::OversizedPrepared(Err(p("o")));
    assert_eq!(app.change_folder(event, NOW), FolderAction::Stop);
    assert_eq!(error(&app), Some("o"));
    assert_eq!(app.settings.folder, Some(p("/pics")));
    assert_eq!(app.cache.window.len(), 1);
}

#[test]
fn usable_folder_resets_the_slideshow() {
    let (mut app, workers) = show(&["a", "b"], 1, 1);
    app.halted = true;
    app.playing = false;
    app.oversized_blocked_msg = Some(p("m"));
    app.oversized_attempts.insert(p("x"), 2);
    app.cache.preload_blocked_by_vram = true;
    assert_eq!(app.change_folder(FolderEvent::Looked(true), NOW), FolderAction::PrepareDelete);
    assert_eq!(
        app.change_folder(FolderEvent::DeletePrepared(Ok(())), NOW),
        FolderAction::PrepareOversized
    );
    assert_eq!(
        app.change_folder(FolderEvent::OversizedPrepared(Ok(())), NOW),
        FolderAction::Scan
    );
    let event = FolderEvent::Scanned { folder: p("/new"), paths: vec![p("x"), p("y"), p("z")] };
    assert_eq!(app.change_folder(event, NOW), FolderAction::Save);
    let mut order = app.playback.play_order.clone();
    order.sort();
    assert_eq!(order, vec![p("x"), p("y"), p("z")]);
    assert_eq!(app.playback.cursor, 0);
    assert_eq!(app.playback.cycle_count, 0);
    assert!(app.cache.window.is_empty());
    assert_eq!(app.cache.current_vram, 0);
    assert!(!app.cache.preload_blocked_by_vram);
    assert_eq!(app.cache.epoch, 1);
    assert_eq!(workers.current_epoch.load(Ordering::SeqCst), 1);
    assert_eq!(app.settings.folder, Some(p("/new")));
    assert!(app.playing && !app.halted && app.state_dirty);
    assert!(app.oversized_blocked_msg.is_none());
    assert_eq!(app.oversized_attempts.get("x"), None);
}

#[test]
fn state_to_save_is_the_state() {
    let (mut app, _w) = show(&["a", "b"], 1, 1);
    app.playback.last_shown = vec![p("a")];
    let state = app.persist_state().unwrap();
    assert_eq!(state.schema_version, 1);
    assert_eq!(state.folder, "/pics");
    assert_eq!(state.interval_secs, 15);
    assert_eq!(state.display_count, 2);
    assert_eq!(state.play_order, vec![p("a"), p("b")]);
    assert_eq!(state.cursor, 1);
    assert_eq!(state.cycle_count, 3);
    assert_eq!(state.last_shown, vec![p("a")]);
    app.settings.folder = None;
    assert!(app.persist_state().is_none());
}

#[test]
fn saving_is_noted() {
    let (mut app, _w) = show(&["a"], 0, 0);
    app.state_dirty = true;
    app.save_now(Err(p("full")), NOW + 1);
    assert!(app.state_dirty);
    assert_eq!(error(&app), Some("状態の保存に失敗しました: full"));
    assert_eq!(app.last_saved, NOW);
    app.save_now(Ok(()), NOW + 2);
    assert!(!app.state_dirty);
    assert_eq!(app.last_saved, NOW + 2);
}
