//! What the advance, the user and the end of a frame do, and what they leave
//! alone.

use crate::app::{
    deleted, folder_followed, oversized_action, oversized_finished, oversized_handled, requeues,
    reset_to, started, was_moved, App, DeleteAction, DeleteEvent, FolderAction, FolderEvent,
    OversizedAction, OversizedEvent, BLOCKED_CAUSE, BLOCKED_HEAD, BLOCKED_PLACE, BLOCKED_TAIL,
    DELETE_CANCELLED, DELETE_FAILED, NANOS_PER_SEC, NOT_A_FOLDER,
};
use crate::cache::{Cache, Slot};
use crate::coherence::{
    coherent, law_delete_takes_one_picture, lemma_without_first, window_bytes,
};
use crate::decoder::Pool;
use crate::frame::{
    advanced_if_due, collected_in, drawn_count, frame_begun, gestures_taken, inputs_of, is_frozen,
    loads, menu_noted, notice_of, panel_pick, panel_toggled, panel_used, refilled_app, settled_as,
    settles_to, target_of, wished, Gestures, Notice,
};
use crate::image_loader::Picture;
use crate::laws::pictures::law_limits_decide;
use crate::paths::{names, rearranged};
use crate::playback::Playback;
use crate::refill::Arrival;
use crate::settings::{name_of, PanelInput, Settings};
use crate::{
    ERROR_MSG_SECS, MAX_INTERVAL_SECS, MAX_OVERSIZED_MOVE_ATTEMPTS, MIN_INTERVAL_SECS,
    OVERSIZED_MAX_PIXELS, OVERSIZED_MAX_SIDE, RESCAN_INTERVAL_SECS,
};
use vstd::prelude::*;

verus! {

/// The advance moves the cursor by as many pictures as are on display: as many
/// as the user set, or all that the window has where those are fewer. Those
/// pictures leave the window, and are the ones last shown. Nothing else of the
/// slideshow changes.
pub proof fn law_advance_moves_by_what_is_shown(app: App, n: int)
    requires
        coherent(app.pb, app.cache),
        n <= app.cache.window.len(),
        n <= app.settings.display_count,
        n == app.cache.window.len() || n == app.settings.display_count,
    ensures
        app.advanced().pb.cursor == app.pb.cursor + n,
        app.advanced().cache.window == app.cache.window.skip(n),
        n > 0 ==> {
            &&& app.advanced().pb.last_shown.len() == n
            &&& forall|i: int|
                0 <= i < n ==> #[trigger] app.advanced().pb.last_shown[i]
                    == app.cache.window[i].path
            &&& !app.advanced().cache.blocked
        },
        n == 0 ==> app.advanced() == app,
        app.advanced() == (App {
            pb: Playback {
                cursor: app.advanced().pb.cursor,
                last_shown: app.advanced().pb.last_shown,
                ..app.pb
            },
            cache: Cache {
                window: app.advanced().cache.window,
                vram: app.advanced().cache.vram,
                pending_free: app.advanced().cache.pending_free,
                blocked: app.advanced().cache.blocked,
                ..app.cache
            },
            ..app
        }),
{
    if n > 0 {
        lemma_without_first(app.cache, n);
        assert(app.pb.order.len() > 0) by {
            assert(app.cache.window[0].path == app.pb.order[app.pb.cursor]);
        }
    } else {
        assert(app.cache.window.skip(0) =~= app.cache.window);
    }
}

/// With one picture on display the advance goes on by one; with two it goes on
/// by two, where the window has them.
pub proof fn law_advance_by_one_or_two(app: App)
    requires
        coherent(app.pb, app.cache),
        app.cache.window.len() > 0,
        1 <= app.settings.display_count <= 2,
    ensures
        app.settings.display_count == 1 ==> app.advanced().pb.cursor == app.pb.cursor + 1,
        app.settings.display_count == 2 && app.cache.window.len() >= 2
            ==> app.advanced().pb.cursor == app.pb.cursor + 2,
        app.cache.window.len() == 1 ==> app.advanced().pb.cursor == app.pb.cursor + 1,
{
    let n = if app.settings.display_count == 2 && app.cache.window.len() >= 2 {
        2int
    } else {
        1int
    };
    law_advance_moves_by_what_is_shown(app, n);
}

/// An advance that was due starts a new interval and is to be saved; one that
/// was not does nothing.
pub proof fn law_advance_notes_the_time(app: App, suppressed: bool, now: u64)
    ensures
        ({
            let next = advanced_if_due(app, suppressed, now);
            let step = app.advanced();
            ||| next == app
            ||| {
                &&& next.pb == step.pb
                &&& next.cache == step.cache
                &&& next.last_advance == now
                &&& next.dirty
                &&& next == (App {
                    pb: next.pb,
                    cache: next.cache,
                    last_advance: now,
                    dirty: true,
                    ..app
                })
            }
        }),
{
}

/// The change to another folder keeps the interval and the number of pictures
/// that the user set, and the panel, the screen, the message and the place of
/// the state file. The new folder is shown from the first of its pictures, in
/// its first cycle; nothing of the old one is left, and its results are
/// worthless.
pub proof fn law_reset_keeps_the_settings(app: App, folder: Seq<char>, order: Seq<Seq<char>>)
    requires
        app.cache.vram == window_bytes(app.cache.window),
    ensures
        ({
            let next = reset_to(app, folder, order);
            &&& next.settings.interval_secs == app.settings.interval_secs
            &&& next.settings.display_count == app.settings.display_count
            &&& next.settings.show_panel == app.settings.show_panel
            &&& next.settings.folder == Some(folder)
            &&& next.pb.order == order
            &&& next.pb.cursor == 0
            &&& next.pb.cycle == 0
            &&& next.pb.pending.len() == 0
            &&& next.pb.fails == Map::<Seq<char>, u32>::empty()
            &&& next.pb.last_shown.len() == 0
            &&& !next.pb.empty_active
            &&& next.cache.window.len() == 0
            &&& next.cache.vram == 0
            &&& !next.cache.blocked
            &&& next.cache.ready == Map::<Seq<char>, Picture>::empty()
            &&& next.cache.inflight == Set::<Seq<char>>::empty()
            &&& next.cache.ready_bytes == 0
            &&& next.cache.epoch != app.cache.epoch
            &&& next.pool == (Pool { epoch: next.cache.epoch, ..app.pool })
            &&& next.attempts == Map::<Seq<char>, u32>::empty()
            &&& next.blocked_msg is None
            &&& next.playing
            &&& !next.halted
            &&& next.dirty
            &&& next == (App {
                pb: next.pb,
                cache: next.cache,
                pool: next.pool,
                settings: next.settings,
                attempts: next.attempts,
                blocked_msg: None,
                playing: true,
                halted: false,
                dirty: true,
                ..app
            })
        }),
{
    lemma_without_first(app.cache, app.cache.window.len() as int);
}

/// Whatever becomes known about a folder that was chosen, the interval and the
/// number of pictures stay as the user set them. Until its pictures are known,
/// the slideshow goes on as it was, but for a message; then it shows exactly
/// those pictures.
pub proof fn law_folder_is_changed_last(
    app: App,
    event: FolderEvent,
    now: u64,
    end: App,
    action: FolderAction,
)
    requires
        folder_followed(app, event, now, end, action),
        app.cache.vram == window_bytes(app.cache.window),
    ensures
        end.settings.interval_secs == app.settings.interval_secs,
        end.settings.display_count == app.settings.display_count,
        end.settings.show_panel == app.settings.show_panel,
        match event {
            FolderEvent::Scanned { folder, paths } => {
                &&& action == FolderAction::Save
                &&& end.settings.folder == Some(folder@)
                &&& rearranged(names(paths@), end.pb.order)
                &&& end.pb.cursor == 0
                &&& end.cache.window.len() == 0
            },
            _ => end == (App { error: end.error, ..app }) && action != FolderAction::Save,
        },
        end.error != app.error ==> action == FolderAction::Stop,
{
    if let FolderEvent::Scanned { folder, paths } = event {
        law_reset_keeps_the_settings(app, folder@, end.pb.order);
    }
}

/// A folder is shown only after it was found to be another one or the slideshow
/// had halted, to be a folder, and to have both of its folders; the first that
/// fails ends it, with a message.
pub proof fn law_folder_steps_come_in_order(
    app: App,
    event: FolderEvent,
    now: u64,
    end: App,
    action: FolderAction,
)
    requires
        folder_followed(app, event, now, end, action),
        now + ERROR_MSG_SECS * NANOS_PER_SEC <= u64::MAX,
    ensures
        match event {
            FolderEvent::Compared(same) => action == FolderAction::Look || action
                == FolderAction::Stop,
            FolderEvent::Looked(true) => action == FolderAction::PrepareDelete,
            FolderEvent::Looked(false) => end.error matches Some((text, until)) && text
                == NOT_A_FOLDER@ && until > now,
            FolderEvent::DeletePrepared(Ok(_)) => action == FolderAction::PrepareOversized,
            FolderEvent::DeletePrepared(Err(e)) => end.error matches Some((text, until)) && text
                == e@ && until > now && action == FolderAction::Stop,
            FolderEvent::OversizedPrepared(Ok(_)) => action == FolderAction::Scan,
            FolderEvent::OversizedPrepared(Err(e)) => end.error matches Some((text, until)) && text
                == e@ && until > now && action == FolderAction::Stop,
            FolderEvent::Scanned { .. } => action == FolderAction::Save,
        },
        event matches FolderEvent::Compared(same) ==> {
            &&& !same ==> action == FolderAction::Look
            &&& app.halted ==> action == FolderAction::Look
            &&& app.settings.folder is None ==> action == FolderAction::Look
            &&& same && !app.halted && app.settings.folder is Some ==> action
                == FolderAction::Stop
        },
{
}

/// The picture of a path is in the window.
pub open spec fn in_window(cache: Cache, path: Seq<char>) -> bool {
    exists|i: int| 0 <= i < cache.window.len() && (#[trigger] cache.window[i]).path == path
}

/// A deletion asks for its folder first and then for the move, and moves a
/// picture only where that is still in the window. Until it was moved, nothing
/// changes but the message. When it was moved, the picture leaves the order and
/// the window, a new epoch begins, and nothing else of the slideshow changes.
pub proof fn law_delete_changes_only_what_it_must(
    app: App,
    target: Seq<char>,
    event: DeleteEvent,
    now: u64,
)
    requires
        coherent(app.pb, app.cache),
        app.settings.folder is Some,
    ensures
        ({
            let (next, action) = deleted(app, target, event, now);
            match event {
                DeleteEvent::Asked => next == app && action == DeleteAction::Prepare,
                DeleteEvent::Prepared(Ok(_)) => if in_window(app.cache, target) {
                    next == app && action == DeleteAction::Move
                } else {
                    &&& next == (App { error: next.error, ..app })
                    &&& next.error matches Some((text, _)) && text == DELETE_CANCELLED@
                    &&& action == DeleteAction::Stop
                },
                DeleteEvent::Prepared(Err(e)) => {
                    &&& next == (App { error: next.error, ..app })
                    &&& next.error matches Some((text, _)) && text == e@
                    &&& action == DeleteAction::Stop
                },
                DeleteEvent::Moved(Err(e)) => {
                    &&& next == (App { error: next.error, ..app })
                    &&& next.error matches Some((text, _)) && text == DELETE_FAILED@ + e@
                    &&& action == DeleteAction::Stop
                },
                DeleteEvent::Moved(Ok(_)) => if in_window(app.cache, target) {
                    &&& action == DeleteAction::Stop
                    &&& !next.pb.order.contains(target)
                    &&& !in_window(next.cache, target)
                    &&& next.cache.window.len() == app.cache.window.len() - 1
                    &&& next.dirty
                    &&& !next.cache.blocked
                    &&& next.cache.epoch != app.cache.epoch
                    &&& next.pool == (Pool { epoch: next.cache.epoch, ..app.pool })
                    &&& next == (App {
                        pb: Playback { order: next.pb.order, ..app.pb },
                        cache: next.cache,
                        pool: next.pool,
                        dirty: true,
                        ..app
                    })
                } else {
                    &&& next == (App { error: next.error, ..app })
                    &&& next.error matches Some((text, _)) && text == DELETE_CANCELLED@
                    &&& action == DeleteAction::Stop
                },
            }
        }),
{
    let paths = app.cache.window.map_values(|s: Slot| s.path);
    paths.index_of_first_ensures(target);
    let (next, _) = deleted(app, target, event, now);
    law_delete_takes_one_picture(app, target, event, now);
    if in_window(app.cache, target) {
        let i = choose|i: int|
            0 <= i < app.cache.window.len() && (#[trigger] app.cache.window[i]).path == target;
        assert(paths[i] == target);
        assert(paths.contains(target));
    } else if paths.contains(target) {
        let i = choose|i: int| 0 <= i < paths.len() && paths[i] == target;
        assert(app.cache.window[i].path == target);
    }
    if was_moved(event) && in_window(app.cache, target) && in_window(
        next.cache,
        target,
    ) {
        let i = choose|i: int|
            0 <= i < next.cache.window.len() && (#[trigger] next.cache.window[i]).path == target;
        assert(next.pb.order[next.pb.cursor + i] == target);
        assert(next.pb.order.contains(target));
    }
}

/// Without a folder nothing is deleted.
pub proof fn law_delete_needs_a_folder(app: App, target: Seq<char>, event: DeleteEvent, now: u64)
    requires
        app.settings.folder is None,
    ensures
        deleted(app, target, event, now).0 == app,
        deleted(app, target, event, now).1 == DeleteAction::Stop,
{
}

/// An oversized picture is moved away where its size is above either limit, and
/// goes back to the end of the order where it is within both. One that is gone
/// is left alone, and so is the order of the others in every case.
pub proof fn law_oversized_goes_by_both_limits(app: App, path: Seq<char>, w: u32, h: u32, now: u64)
    ensures
        ({
            let event = OversizedEvent::Sized(Some((w, h)));
            let next = oversized_handled(app, path, event, now);
            let large = w * h > OVERSIZED_MAX_PIXELS || w > OVERSIZED_MAX_SIDE || h
                > OVERSIZED_MAX_SIDE;
            &&& large ==> next == app && oversized_action(app, path, event)
                == OversizedAction::Prepare && !requeues(event)
            &&& !large ==> next.pb.order == app.pb.order.push(path) && oversized_action(
                app,
                path,
                event,
            ) == OversizedAction::Next && requeues(event)
        }),
        ({
            let event = OversizedEvent::Sized(None);
            &&& oversized_handled(app, path, event, now) == app
            &&& oversized_action(app, path, event) == OversizedAction::Next
            &&& !requeues(event)
        }),
{
    law_limits_decide(w, h);
}

/// What becomes known about an oversized picture touches the end of the order
/// at most, and of the rest only the message, the count of its failed moves,
/// and, when it has failed too often, whether the slideshow goes on. The order
/// grows exactly when the picture is put back.
pub proof fn law_oversized_changes_only_what_it_must(
    app: App,
    path: Seq<char>,
    event: OversizedEvent,
    now: u64,
)
    ensures
        ({
            let next = oversized_handled(app, path, event, now);
            &&& next.pb == (Playback { order: next.pb.order, ..app.pb })
            &&& requeues(event) ==> next.pb.order == app.pb.order.push(path)
            &&& !requeues(event) ==> next.pb.order == app.pb.order
            &&& next == (App {
                pb: next.pb,
                error: next.error,
                attempts: next.attempts,
                blocked_msg: next.blocked_msg,
                playing: next.playing,
                halted: next.halted,
                ..app
            })
            &&& forall|p: Seq<char>|
                p != path ==> (#[trigger] next.attempts.contains_key(p)
                    <==> app.attempts.contains_key(p)) && (app.attempts.contains_key(p)
                    ==> next.attempts[p] == app.attempts[p])
            &&& match event {
                OversizedEvent::Prepared(Err(e)) => next.error matches Some((text, _)) && text
                    == e@,
                _ => next.error == app.error,
            }
            &&& match event {
                OversizedEvent::Prepared(_) => oversized_action(app, path, event)
                    == OversizedAction::Move,
                OversizedEvent::Moved => oversized_action(app, path, event)
                    == OversizedAction::Next && !next.attempts.contains_key(path),
                _ => true,
            }
            &&& !(event is NotMoved) ==> next.halted == app.halted && next.playing == app.playing
                && next.blocked_msg == app.blocked_msg
        }),
{
}

/// The slideshow halts at the failed move that makes the count full, and not
/// before; until then the count goes up by one. The message then names the
/// picture, where it is, and why it could not be moved.
pub proof fn law_failed_move_counts(
    app: App,
    path: Seq<char>,
    file_name: Option<String>,
    error: String,
    now: u64,
    failed: u32,
)
    requires
        if app.attempts.contains_key(path) {
            app.attempts[path] == failed
        } else {
            failed == 0
        },
    ensures
        ({
            let event = OversizedEvent::NotMoved { file_name, error };
            let next = oversized_handled(app, path, event, now);
            &&& requeues(event)
            &&& failed + 1 < MAX_OVERSIZED_MOVE_ATTEMPTS ==> {
                &&& next.attempts.contains_key(path)
                &&& next.attempts[path] == failed + 1
                &&& next.halted == app.halted
                &&& next.playing == app.playing
                &&& next.blocked_msg == app.blocked_msg
                &&& oversized_action(app, path, event) == OversizedAction::Next
            }
            &&& failed + 1 >= MAX_OVERSIZED_MOVE_ATTEMPTS ==> {
                &&& !next.attempts.contains_key(path)
                &&& next.halted
                &&& !next.playing
                &&& next.blocked_msg == Some(
                    BLOCKED_HEAD@ + (match file_name {
                        Some(name) => name@,
                        None => path,
                    }) + BLOCKED_PLACE@ + path + BLOCKED_CAUSE@ + error@ + BLOCKED_TAIL@,
                )
                &&& oversized_action(app, path, event) == OversizedAction::Stop
            }
        }),
        MAX_OVERSIZED_MOVE_ATTEMPTS == 5,
{
}

/// When the oversized pictures have been dealt with, a new epoch begins and the
/// state is to be saved, where the order has changed; else nothing happens. The
/// window stays either way.
pub proof fn law_changed_order_is_announced(app: App, changed: bool)
    ensures
        ({
            let next = oversized_finished(app, changed);
            &&& !changed ==> next == app
            &&& changed ==> {
                &&& next.dirty
                &&& next.cache.epoch != app.cache.epoch
                &&& next.pool == (Pool { epoch: next.cache.epoch, ..app.pool })
                &&& next.cache.window == app.cache.window
                &&& next.cache.vram == app.cache.vram
                &&& next.cache.pending_free == app.cache.pending_free
                &&& next.cache.blocked == app.cache.blocked
                &&& next.cache.ready == Map::<Seq<char>, Picture>::empty()
                &&& next.cache.inflight == Set::<Seq<char>>::empty()
                &&& next.cache.ready_bytes == 0
                &&& next == (App {
                    cache: next.cache,
                    pool: next.pool,
                    dirty: true,
                    ..app
                })
            }
        }),
{
}

/// A refill asks for the state to be saved, and announces a new epoch, exactly
/// where a picture has left the order; it changes nothing that the user sees
/// beside the pictures, and no setting.
pub proof fn law_refill_leaves_the_rest(
    app: App,
    oversized: Seq<Seq<char>>,
    arrivals: Seq<Arrival>,
    display_count: int,
)
    ensures
        ({
            let f = collected_in(app, oversized, arrivals);
            let next = refilled_app(app, f, display_count);
            &&& next.pb == f.pb
            &&& next == (App {
                pb: next.pb,
                cache: next.cache,
                pool: next.pool,
                dirty: next.dirty,
                ..app
            })
            &&& next.dirty <==> app.dirty || f.changed
            &&& f.changed ==> next.pool == (Pool { epoch: next.cache.epoch, ..app.pool })
            &&& !f.changed ==> next.pool == app.pool
        }),
{
}

/// While a message waits, no input is taken but its acknowledgement and a double
/// click, which does nothing then; while a menu is open, neither keys nor the
/// play button nor a double click are taken; while the panel is open, the keys
/// are not.
pub proof fn law_inputs_are_held_back(app: App)
    ensures
        ({
            let inputs = inputs_of(app);
            &&& app.blocked_msg is Some ==> !inputs.keys && !inputs.play_button && !inputs.panel
                && !inputs.actions
            &&& app.menu_open ==> !inputs.keys && !inputs.play_button && !inputs.double_click
            &&& app.settings.show_panel ==> !inputs.keys
            &&& app.blocked_msg is None ==> inputs.panel && inputs.actions
            &&& app.blocked_msg is None && !app.menu_open ==> inputs.play_button
                && inputs.double_click
            &&& app.blocked_msg is None && !app.menu_open && !app.settings.show_panel
                ==> inputs.keys
            &&& inputs.double_click == !app.menu_open
        }),
{
}

/// The panel sets the nearest values that are allowed, and keeps what was not
/// touched. It does not change the folder itself. The state is to be saved
/// where a value was set. While a message waits, it does nothing.
pub proof fn law_panel_sets_what_was_touched(app: App, input: PanelInput)
    requires
        app.settings.wf(),
    ensures
        ({
            let next = panel_used(app, input);
            &&& next.settings.folder == app.settings.folder
            &&& app.blocked_msg is Some ==> next == app && panel_pick(app, input) is None
            &&& app.blocked_msg is None ==> {
                &&& panel_pick(app, input) == name_of(input.folder)
                &&& next.settings.show_panel == input.open
                &&& input.interval_secs is None ==> next.settings.interval_secs
                    == app.settings.interval_secs
                &&& input.display_count is None ==> next.settings.display_count
                    == app.settings.display_count
                &&& input.interval_secs matches Some(secs) ==> {
                    &&& MIN_INTERVAL_SECS <= secs <= MAX_INTERVAL_SECS
                        ==> next.settings.interval_secs == secs
                    &&& secs < MIN_INTERVAL_SECS ==> next.settings.interval_secs
                        == MIN_INTERVAL_SECS
                    &&& secs > MAX_INTERVAL_SECS ==> next.settings.interval_secs
                        == MAX_INTERVAL_SECS
                }
                &&& input.display_count matches Some(count) ==> {
                    &&& count < 2 ==> next.settings.display_count == 1
                    &&& count >= 2 ==> next.settings.display_count == 2
                }
                &&& next.dirty <==> app.dirty || input.interval_secs is Some
                    || input.display_count is Some
                &&& next == (App { settings: next.settings, dirty: next.dirty, ..app })
            }
        }),
{
}

/// The button for the panel opens and closes it, and does nothing else; used
/// twice it changes nothing; while a message waits it does nothing.
pub proof fn law_panel_button_toggles(app: App)
    ensures
        panel_toggled(panel_toggled(app)) == app,
        app.blocked_msg is Some ==> panel_toggled(app) == app,
        app.blocked_msg is None ==> panel_toggled(app).settings.show_panel
            != app.settings.show_panel,
        panel_toggled(app) == (App {
            settings: Settings {
                show_panel: panel_toggled(app).settings.show_panel,
                ..app.settings
            },
            ..app
        }),
{
    let back = panel_toggled(panel_toggled(app));
    assert(back.settings.show_panel == app.settings.show_panel);
}

/// What was wished for is done and nothing else: the screen changes exactly
/// where that was wished for, play exactly where that was, and neither while a
/// message is waited on. Play that is switched on begins a full interval.
pub proof fn law_wishes_are_done(app: App, fullscreen: bool, play: bool, blocked: bool, now: u64)
    ensures
        ({
            let next = wished(app, fullscreen, play, blocked, now);
            &&& next.fullscreen != app.fullscreen <==> fullscreen && !blocked
            &&& next.playing != app.playing <==> play && !blocked
            &&& next.playing && !app.playing ==> next.last_advance == now
                && next.frozen_remaining is None
            &&& !(next.playing && !app.playing) ==> next.last_advance == app.last_advance
                && next.frozen_remaining == app.frozen_remaining
            &&& next == (App {
                fullscreen: next.fullscreen,
                playing: next.playing,
                last_advance: next.last_advance,
                frozen_remaining: next.frozen_remaining,
                ..app
            })
        }),
{
}

/// The advance is frozen by an open menu, by the open panel and by a waiting
/// message, and by nothing else.
pub proof fn law_what_freezes(app: App, blocked: bool)
    ensures
        app.menu_open ==> is_frozen(app, blocked),
        app.settings.show_panel ==> is_frozen(app, blocked),
        blocked ==> is_frozen(app, blocked),
        !app.menu_open && !app.settings.show_panel && !blocked ==> !is_frozen(app, blocked),
{
}

/// What the user did in a frame changes neither the order nor the window nor a
/// setting. Whether the advance is frozen afterwards goes by what the user left
/// open. What a menu is for is kept while it is open or a deletion is asked for,
/// and forgotten otherwise.
pub proof fn law_gestures_leave_the_pictures(app: App, g: Gestures, blocked: bool, now: u64)
    ensures
        ({
            let next = gestures_taken(app, g, blocked, now);
            &&& next.pb == app.pb
            &&& next.cache == app.cache
            &&& next.settings == app.settings
            &&& next.pool == app.pool
            &&& next.dirty == app.dirty
            &&& next.error == app.error
            &&& next.blocked_msg == app.blocked_msg
            &&& next.halted == app.halted
            &&& next.attempts == app.attempts
            &&& next.menu_open == g.menu_open
            &&& next.menu_target == if g.menu_open || g.delete {
                app.menu_target
            } else {
                None
            }
            &&& next.freeze_active == (g.menu_open || app.settings.show_panel || blocked)
            &&& next.fullscreen != app.fullscreen <==> g.fullscreen && !blocked
            &&& next.playing != app.playing <==> g.play && !blocked
        }),
{
}

/// A deletion from a menu is for the picture that the menu was opened on,
/// whatever stands in its place since.
pub proof fn law_menu_keeps_its_picture(app: App, i: int, later: App, j: int, deleting: bool)
    requires
        0 <= i < app.cache.window.len(),
        later.menu_target == Some(app.cache.window[i].path),
    ensures
        target_of(menu_noted(later, true, deleting), j) == app.cache.window[i].path,
        target_of(menu_noted(later, false, true), j) == app.cache.window[i].path,
        target_of(menu_noted(later, false, false), j) == later.cache.window[j].path,
{
}

/// As many pictures are drawn as are wanted, or as there are; where none is,
/// there is a notice, which says why: no folder, no pictures, or none yet.
pub proof fn law_notice_where_nothing_is_drawn(app: App, display_count: usize)
    ensures
        drawn_count(app, display_count) <= display_count,
        drawn_count(app, display_count) <= app.cache.window.len(),
        drawn_count(app, display_count) == display_count || drawn_count(app, display_count)
            == app.cache.window.len(),
        drawn_count(app, display_count) > 0 <==> notice_of(app, display_count) is None,
        notice_of(app, display_count) matches Some(notice) ==> {
            &&& app.settings.folder is None <==> notice is ChooseFolder
            &&& app.settings.folder is Some && app.pb.order.len() == 0 <==> notice is NoPictures
            &&& app.settings.folder is Some && app.pb.order.len() > 0 <==> notice is Loading
        },
{
}

/// A frame begins by letting go of the textures that are finished with, and
/// changes nothing else.
pub proof fn law_frame_frees_textures(app: App)
    ensures
        frame_begun(app).cache.pending_free.len() == 0,
        frame_begun(app).cache == (Cache {
            pending_free: frame_begun(app).cache.pending_free,
            ..app.cache
        }),
        frame_begun(app) == (App { cache: frame_begun(app).cache, ..app }),
{
}

/// Pictures are waited for exactly where a folder with pictures is shown and
/// fewer are drawn than are wanted.
pub proof fn law_missing_pictures_are_waited_for(app: App, display_count: usize)
    ensures
        loads(app, display_count) <==> app.settings.folder is Some && app.pb.order.len() > 0
            && drawn_count(app, display_count) < display_count,
        notice_of(app, display_count) == Some(Notice::Loading) && display_count > 0 ==> loads(
            app,
            display_count,
        ),
{
}

/// The end of a frame begins a new cycle exactly when every picture of this one
/// has been shown and left the window, and empties the display exactly when the
/// last picture has left the order; a halted slideshow does neither.
pub proof fn law_when_a_cycle_ends(app: App)
    ensures
        settled_as(app) is CycleBoundary <==> !app.halted && app.pb.order.len() > 0
            && app.cache.window.len() == 0 && app.pb.cursor >= app.pb.order.len(),
        settled_as(app) is Empty <==> !app.halted && app.pb.order.len() == 0
            && !app.pb.empty_active,
{
}

/// The end of a frame leaves alone what it is not about: the settings, the
/// message, the clock of the advance, the files that wait and the failures. A
/// new cycle starts before its first picture, with a new epoch, is to be saved
/// and counts one more; an emptied display starts a new epoch.
pub proof fn law_settle_leaves_the_rest(a: App, b: App)
    requires
        settles_to(a, b),
        a.cache.vram == window_bytes(a.cache.window),
    ensures
        b == (App { pb: b.pb, cache: b.cache, pool: b.pool, dirty: b.dirty, ..a }),
        b.pb == (Playback {
            order: b.pb.order,
            cursor: b.pb.cursor,
            cycle: b.pb.cycle,
            empty_active: b.pb.empty_active,
            ..a.pb
        }),
        settled_as(a) is Unchanged ==> {
            &&& b.pb.order == a.pb.order && b.pb.cursor == a.pb.cursor && b.pb.cycle == a.pb.cycle
            &&& b.cache == a.cache && b.pool == a.pool && b.dirty == a.dirty
            &&& !a.halted ==> (b.pb.empty_active <==> a.pb.order.len() == 0)
        },
        settled_as(a) is Empty ==> {
            &&& b.pb.order == a.pb.order && b.pb.cursor == 0 && b.pb.cycle == a.pb.cycle
            &&& b.pb.empty_active && b.dirty == a.dirty
            &&& b.cache.window.len() == 0 && b.cache.vram == 0 && !b.cache.blocked
            &&& b.cache.epoch != a.cache.epoch
            &&& b.pool == (Pool { epoch: b.cache.epoch, ..a.pool })
        },
        settled_as(a) is CycleBoundary ==> {
            &&& rearranged(a.pb.order, b.pb.order) && b.pb.cursor == 0
            &&& !b.pb.empty_active && b.dirty
            &&& b.cache.window == a.cache.window && b.cache.vram == 0 && !b.cache.blocked
            &&& b.cache.pending_free == a.cache.pending_free
            &&& b.cache.epoch != a.cache.epoch
            &&& b.pool == (Pool { epoch: b.cache.epoch, ..a.pool })
        },
        a.pb.cycle < u32::MAX ==> b.pb.cycle == a.pb.cycle + (if settled_as(a) is CycleBoundary {
            1int
        } else {
            0int
        }),
{
    lemma_without_first(a.cache, a.cache.window.len() as int);
}

/// A slideshow starts playing, with what it was given, nothing in the window
/// and nothing to save, and waits a full interval for its first advance, for
/// its first look at the folder and for its first save.
pub proof fn law_start_is_given(
    settings: Settings,
    pb: Playback,
    pool: Pool,
    save_path: Option<Seq<char>>,
    now: u64,
)
    ensures
        ({
            let app = started(settings, pb, pool, save_path, now);
            &&& app.settings == settings && app.pb == pb && app.pool == pool
            &&& app.save_path == save_path
            &&& app.playing && !app.halted && !app.dirty && !app.freeze_active && !app.fullscreen
            &&& app.last_advance == now && app.last_rescan == now && app.last_saved == now
            &&& app.cache.window.len() == 0 && app.cache.vram == 0
            &&& app.cache.ready_bytes == 0 && app.cache.epoch == 0 && !app.cache.blocked
            &&& app.error is None && app.blocked_msg is None
            &&& !app.menu_open && app.menu_target is None && app.frozen_remaining is None
            &&& app.attempts == Map::<Seq<char>, u32>::empty()
            &&& app.rescan_interval == RESCAN_INTERVAL_SECS * NANOS_PER_SEC
        }),
        RESCAN_INTERVAL_SECS == 10,
{
}

} // verus!
