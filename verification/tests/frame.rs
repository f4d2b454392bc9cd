use shufflepic::app::{ShufflePicApp, NANOS_PER_SEC};
use shufflepic::cache::{CachedImage, Settle};
use shufflepic::decoder::{DecodeOutcome, DecodeResult, DecoderPool, WorkerEnds};
use shufflepic::frame::{Gestures, Inputs, Notice};
use shufflepic::image_loader::{judge_attempt, RgbaPixels};
use shufflepic::playback::PlaybackState;
use shufflepic::refill::Arrival;
use shufflepic::scanner::{FileStat, ScannedFile};
use shufflepic::settings::{PanelInput, SettingsState};
use std::sync::atomic::Ordering;

const SEC: u64 = NANOS_PER_SEC;
const NOW: u64 = 1_000 * SEC;

fn p(s: &str) -> String {
    s.to_string()
}

fn show(order: &[&str], cursor: usize, window: usize) -> (ShufflePicApp, WorkerEnds) {
    let (decoder, workers) = DecoderPool::new();
    let settings = SettingsState::defaults(Some(p("/pics")));
    let paths = order.iter().map(|s| p(s)).collect();
    let playback = PlaybackState::from_restored(paths, cursor, 0, Vec::new());
    let mut app = ShufflePicApp::new(settings, playback, decoder, None, NOW);
    for path in &order[cursor..cursor + window] {
        app.cache.window.push_back(CachedImage {
            path: p(path),
            pixels: None,
            texture: None,
            width: 1,
            height: 1,
            vram_size: 4,
        });
        app.cache.current_vram += 4;
    }
    (app, workers)
}

fn panel(interval_secs: Option<u64>, folder: Option<&str>) -> PanelInput {
    PanelInput { folder: folder.map(p), interval_secs, display_count: None, open: true }
}

#[test]
fn look_at_the_folder_is_due_every_ten_seconds() {
    let (mut app, _w) = show(&["a"], 0, 0);
    assert!(!app.begin_frame(NOW));
    assert!(!app.begin_frame(NOW + 10 * SEC - 1));
    assert!(app.begin_frame(NOW + 10 * SEC));
    app.halted = true;
    assert!(!app.begin_frame(NOW + 10 * SEC));
    app.halted = false;
    app.settings.folder = None;
    assert!(!app.begin_frame(NOW + 10 * SEC));
}

#[test]
fn frame_lets_go_of_textures() {
    let ctx = egui::Context::default();
    let color = egui::ColorImage::from_rgba_unmultiplied([1, 1], &[1, 2, 3, 255]);
    let texture = ctx.load_texture("a", color, egui::TextureOptions::LINEAR);
    let (mut app, _w) = show(&["a"], 0, 1);
    app.cache.window[0].texture = Some(texture);
    app.advance();
    assert_eq!(app.cache.pending_free.len(), 1);
    app.begin_frame(NOW);
    assert!(app.cache.pending_free.is_empty());
}

#[test]
fn look_that_changes_the_order_starts_an_epoch() {
    let (mut app, workers) = show(&["a", "b", "c"], 0, 1);
    let file = |s: &str| ScannedFile { path: p(s), stat: Some(FileStat { size: 1, modified: 1 }) };
    app.run_rescan(&vec![file("a"), file("b"), file("c")], &Vec::new(), NOW + SEC);
    assert_eq!(app.scanner.last_rescan, NOW + SEC);
    assert_eq!(app.cache.epoch, 0);
    assert!(!app.state_dirty);
    app.run_rescan(&vec![file("a"), file("c")], &Vec::new(), NOW + 2 * SEC);
    assert_eq!(app.playback.play_order, vec![p("a"), p("c")]);
    assert_eq!(app.cache.epoch, 1);
    assert_eq!(workers.current_epoch.load(Ordering::SeqCst), 1);
    assert!(app.state_dirty);
}

#[test]
fn refill_and_request() {
    let (mut app, workers) = show(&["a", "b", "c"], 0, 0);
    assert!(app.is_running());
    assert!(app.is_loading(2));
    let mut oversized = Vec::new();
    let wanted = app.refill(2, Vec::new(), &mut oversized);
    assert_eq!(wanted.len(), 3);
    app.request(wanted);
    assert_eq!(workers.rx_priority.len(), 2);
    assert_eq!(workers.rx_prefetch.len(), 1);
    let pixels = RgbaPixels { width: 1, height: 1, bytes: vec![1, 2, 3, 255] };
    let outcome = DecodeOutcome::from(judge_attempt(Some((1, 1)), Some(pixels), true));
    let first = workers.rx_priority.try_recv().unwrap();
    let second = workers.rx_priority.try_recv().unwrap();
    let arrivals = vec![
        Arrival { result: first.answer(outcome), current: None },
        Arrival { result: second.answer(DecodeOutcome::Oversized { w: 20_000, h: 1 }), current: None },
    ];
    assert!(app.can_take(2, &arrivals));
    let wanted = app.refill(2, arrivals, &mut oversized);
    assert_eq!(oversized, vec![p("b")]);
    assert_eq!(app.playback.play_order, vec![p("a"), p("c")]);
    assert_eq!(app.cache.window.len(), 1);
    assert_eq!(app.cache.epoch, 1);
    assert!(app.state_dirty);
    assert_eq!(wanted.len(), 1, "the new epoch asks again");
    assert_eq!(wanted[0].path, "c");
}

#[test]
fn unanswered_results_do_not_make_it_dirty() {
    let (mut app, _w) = show(&["a"], 0, 0);
    let stale = DecodeResult {
        path: p("a"),
        epoch: 9,
        fingerprint: None,
        outcome: DecodeOutcome::Missing,
    };
    app.refill(2, vec![Arrival { result: stale, current: None }], &mut Vec::new());
    assert!(!app.state_dirty);
    assert_eq!(app.playback.play_order.len(), 1);
}

#[test]
fn keys_are_off_behind_menus_and_messages() {
    let (mut app, _w) = show(&["a"], 0, 1);
    assert!(app.accepts_keys());
    app.menu_open = true;
    assert!(!app.accepts_keys());
    app.menu_open = false;
    app.settings.show_panel = true;
    assert!(!app.accepts_keys());
    app.settings.show_panel = false;
    app.oversized_blocked_msg = Some(p("m"));
    assert!(app.is_blocked());
    assert!(!app.accepts_keys());
    app.acknowledge();
    assert!(!app.is_blocked());
    assert!(app.accepts_keys());
}

#[test]
fn panel_is_off_behind_a_message() {
    let (mut app, _w) = show(&["a"], 0, 1);
    app.oversized_blocked_msg = Some(p("m"));
    assert_eq!(app.use_panel(panel(Some(30), Some("/x"))), None);
    app.toggle_panel();
    assert_eq!(app.settings.interval_secs, 15);
    assert!(!app.settings.show_panel);
    app.acknowledge();
    app.toggle_panel();
    assert!(app.settings.show_panel);
    assert_eq!(app.use_panel(panel(Some(30), Some("/x"))), Some(p("/x")));
    assert_eq!(app.settings.interval_secs, 30);
    assert!(app.state_dirty);
    app.toggle_panel();
    assert!(!app.settings.show_panel);
}

#[test]
fn counts_add_up() {
    let (mut app, _w) = show(&["a", "b", "c"], 1, 2);
    let c = app.counts();
    assert_eq!((c.shown, c.remaining, c.cached, c.cycle), (1, 2, 2, 0));
    app.playback.cursor = 9;
    let c = app.counts();
    assert_eq!((c.shown, c.remaining), (3, 0));
}

#[test]
fn notice_says_what_is_missing() {
    let (mut app, _w) = show(&["a"], 0, 1);
    assert_eq!(app.drawn(2), 1);
    assert_eq!(app.notice(2), None);
    app.cache.window.clear();
    assert_eq!(app.notice(2), Some(Notice::Loading));
    app.playback.play_order.clear();
    assert_eq!(app.notice(2), Some(Notice::NoPictures));
    app.settings.folder = None;
    assert_eq!(app.notice(2), Some(Notice::ChooseFolder));
    assert_eq!(Notice::Loading.text(), "読み込み中...");
    assert_eq!(Notice::NoPictures.text(), "画像がありません（空フォルダ状態）");
    assert_eq!(Notice::ChooseFolder.text(), "設定からフォルダを選択してください");
}

#[test]
fn menu_is_for_the_picture_it_was_opened_on() {
    let (mut app, _w) = show(&["a", "b", "c"], 0, 3);
    assert_eq!(app.delete_target(1), "b");
    app.open_menu_on(0);
    app.note_menu(true, false);
    app.advance();
    assert_eq!(app.cache.window[0].path, "c");
    assert_eq!(app.delete_target(0), "a", "the display has gone on");
    app.note_menu(false, true);
    assert_eq!(app.menu_target, Some(p("a")));
    app.note_menu(false, false);
    assert_eq!(app.menu_target, None);
    assert!(!app.menu_open);
    app.open_menu_on(0);
    app.forget_menu_target();
    assert_eq!(app.menu_target, None);
}

#[test]
fn freeze_keeps_the_time_left() {
    let (mut app, _w) = show(&["a"], 0, 1);
    app.menu_open = true;
    assert!(app.switch_freeze(false, NOW + 6 * SEC));
    assert_eq!(app.advance_frozen_remaining, Some(9 * SEC));
    assert!(!app.advance_if_due(false, NOW + 100 * SEC));
    assert!(!app.switch_freeze(false, NOW + 50 * SEC));
    app.menu_open = false;
    assert!(app.switch_freeze(false, NOW + 100 * SEC));
    assert_eq!(app.advance_frozen_remaining, None);
    assert!(!app.advance_if_due(true, NOW + 109 * SEC), "put off for the frame");
    assert!(!app.advance_if_due(false, NOW + 109 * SEC - 1));
    assert!(app.advance_if_due(false, NOW + 109 * SEC));
}

#[test]
fn freeze_by_panel_and_by_message() {
    let (mut app, _w) = show(&["a"], 0, 1);
    app.settings.show_panel = true;
    assert!(app.switch_freeze(false, NOW));
    app.settings.show_panel = false;
    assert!(!app.switch_freeze(true, NOW));
    assert!(app.advance_freeze_active);
    assert!(app.switch_freeze(false, NOW));
    assert!(!app.advance_freeze_active);
}

#[test]
fn time_left_is_no_more_than_the_new_interval() {
    let (mut app, _w) = show(&["a"], 0, 1);
    app.settings.show_panel = true;
    app.switch_freeze(false, NOW);
    assert_eq!(app.advance_frozen_remaining, Some(15 * SEC));
    app.settings.interval_secs = 5;
    app.settings.show_panel = false;
    app.switch_freeze(false, NOW + 60 * SEC);
    assert!(!app.advance_if_due(false, NOW + 65 * SEC - 1));
    assert!(app.advance_if_due(false, NOW + 65 * SEC));
}

#[test]
fn play_begins_a_full_interval() {
    let (mut app, _w) = show(&["a"], 0, 1);
    app.toggle_play(NOW + SEC);
    assert!(!app.playing);
    assert_eq!(app.last_advance, NOW);
    assert!(!app.advance_if_due(false, NOW + 60 * SEC));
    app.advance_frozen_remaining = Some(3);
    app.toggle_play(NOW + 60 * SEC);
    assert!(app.playing);
    assert_eq!(app.last_advance, NOW + 60 * SEC);
    assert_eq!(app.advance_frozen_remaining, None);
}

#[test]
fn wishes_wait_for_the_message() {
    let (mut app, _w) = show(&["a"], 0, 1);
    assert!(!app.apply_wishes(true, true, true, NOW));
    assert!(app.playing && !app.fullscreen);
    assert!(app.apply_wishes(true, false, false, NOW));
    assert!(app.playing && app.fullscreen);
    assert!(app.apply_wishes(false, true, false, NOW));
    assert!(!app.playing && app.fullscreen);
    assert!(!app.apply_wishes(false, false, false, NOW));
    app.toggle_fullscreen();
    assert!(!app.fullscreen);
}

#[test]
fn advance_is_due_after_the_interval() {
    let (mut app, _w) = show(&["a", "b", "c"], 0, 2);
    assert!(!app.advance_if_due(false, NOW + 15 * SEC - 1));
    assert!(app.advance_if_due(false, NOW + 15 * SEC));
    assert_eq!(app.playback.cursor, 2);
    assert_eq!(app.last_advance, NOW + 15 * SEC);
    assert!(app.state_dirty);
    app.halted = true;
    assert!(!app.advance_if_due(false, NOW + 99 * SEC));
}

#[test]
fn settle_begins_a_cycle_once() {
    let (mut app, workers) = show(&["a", "b"], 2, 0);
    assert_eq!(app.settle(), Settle::CycleBoundary);
    assert!(app.state_dirty);
    assert_eq!(app.playback.cycle_count, 1);
    assert_eq!(workers.current_epoch.load(Ordering::SeqCst), 1);
    assert_eq!(app.settle(), Settle::Unchanged);
    assert_eq!(app.playback.cycle_count, 1);
}

#[test]
fn settle_empties_once_and_never_when_halted() {
    let (mut app, _w) = show(&[], 0, 0);
    app.halted = true;
    assert_eq!(app.settle(), Settle::Unchanged);
    assert!(!app.playback.empty_state_active);
    app.halted = false;
    assert_eq!(app.settle(), Settle::Empty);
    assert!(!app.state_dirty);
    assert_eq!(app.settle(), Settle::Unchanged);
}

#[test]
fn message_goes_away() {
    let (mut app, _w) = show(&[], 0, 0);
    app.set_error(p("oh"), NOW);
    app.expire_error(NOW + 4 * SEC - 1);
    assert!(app.error.is_some());
    app.expire_error(NOW + 4 * SEC);
    assert!(app.error.is_none());
    app.expire_error(NOW);
}

#[test]
fn state_is_saved_every_five_seconds_at_most() {
    let (mut app, _w) = show(&[], 0, 0);
    assert!(!app.save_due(NOW + 60 * SEC));
    app.state_dirty = true;
    assert!(!app.save_due(NOW + 5 * SEC - 1));
    assert!(app.save_due(NOW + 5 * SEC));
    app.settings.folder = None;
    assert!(!app.save_due(NOW + 60 * SEC));
}

#[test]
fn wait_ends_with_the_next_event() {
    let (mut app, _w) = show(&["a"], 0, 1);
    assert_eq!(app.wait(NOW), SEC);
    assert_eq!(app.wait(NOW + 9 * SEC + SEC / 2), SEC / 2, "the look at the folder");
    app.scanner.last_rescan = NOW + 14 * SEC;
    assert_eq!(app.wait(NOW + 14 * SEC + SEC / 4), 3 * SEC / 4, "the advance");
    assert_eq!(app.wait(NOW + 99 * SEC), 0);
    app.settings.folder = None;
    app.playing = false;
    assert_eq!(app.wait(NOW + 99 * SEC), SEC);
}

#[test]
fn loading_until_the_display_is_filled() {
    let (app, _w) = show(&["a", "b"], 0, 1);
    assert_eq!(app.drawn(2), 1);
    assert_eq!(app.drawn(0), 0);
    assert!(app.is_loading(2));
    assert!(!app.is_loading(1));
}

#[test]
fn gestures_are_taken_in_one_go() {
    let (mut app, _w) = show(&["a", "b"], 0, 2);
    app.open_menu_on(1);
    let menu = Gestures { play: false, fullscreen: false, delete: false, menu_open: true };
    assert_eq!(app.take_gestures(menu, false, NOW + SEC), (true, false));
    assert!(app.menu_open && app.advance_freeze_active);
    assert_eq!(app.menu_target, Some(p("b")));
    let delete = Gestures { play: true, fullscreen: true, delete: true, menu_open: false };
    assert_eq!(app.take_gestures(delete, false, NOW + 2 * SEC), (true, true));
    assert!(!app.playing && app.fullscreen && !app.advance_freeze_active);
    assert_eq!(app.menu_target, Some(p("b")));
    assert_eq!(app.last_advance, NOW + SEC);
    let none = Gestures { play: true, fullscreen: true, delete: false, menu_open: false };
    assert_eq!(app.take_gestures(none, true, NOW + 3 * SEC), (true, false));
    assert!(!app.playing && app.fullscreen, "a message waited");
    assert_eq!(app.menu_target, None);
}

#[test]
fn frame_ends_with_the_cycle() {
    let (mut app, _w) = show(&["a", "b"], 2, 0);
    app.set_error(p("oh"), NOW);
    assert_eq!(app.end_frame(NOW + SEC), (true, false));
    assert_eq!(app.playback.cycle_count, 1);
    assert!(app.error.is_some());
    assert_eq!(app.end_frame(NOW + 6 * SEC), (false, true));
    assert!(app.error.is_none());
}

#[test]
fn inputs_wait_for_menus_and_messages() {
    let (mut app, _w) = show(&["a"], 0, 1);
    let all =
        Inputs { keys: true, play_button: true, double_click: true, panel: true, actions: true };
    assert_eq!(app.inputs(), all);
    app.settings.show_panel = true;
    assert_eq!(app.inputs(), Inputs { keys: false, ..all });
    app.settings.show_panel = false;
    app.menu_open = true;
    let menu = Inputs { keys: false, play_button: false, double_click: false, ..all };
    assert_eq!(app.inputs(), menu);
    app.menu_open = false;
    app.oversized_blocked_msg = Some(p("m"));
    let message =
        Inputs { keys: false, play_button: false, double_click: true, panel: false, actions: false };
    assert_eq!(app.inputs(), message);
}
