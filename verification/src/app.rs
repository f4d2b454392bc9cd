//! The slideshow as a whole: what each event of a frame does to its state.
//!
//! Clock readings are in nanoseconds.

use crate::cache::{emptied, lemma_without_first_ready, Cache, CacheState, Slot};
use crate::decoder::{DecoderPool, Pool};
use crate::image_loader::{is_oversized, oversized};
use crate::paths::{lemma_names_push, names, rearranged, remove_first};
use crate::persist::{law_unchanged_folder_resumes, reconciled, PersistState, Saved};
use crate::playback::{restored, Playback, PlaybackState};
use crate::scanner::ScannerState;
use crate::settings::{clamped_count, clamped_interval, name_of, Settings, SettingsState};
use crate::{
    ERROR_MSG_SECS, MAX_OVERSIZED_MOVE_ATTEMPTS, PERSIST_SCHEMA_VERSION, RESCAN_INTERVAL_SECS,
};
use vstd::hash_map::StringHashMap;
use vstd::prelude::*;
use vstd::string::*;

verus! {

pub const NANOS_PER_SEC: u64 = 1_000_000_000;

pub struct ShufflePicApp {
    pub playback: PlaybackState,
    pub cache: CacheState,
    pub scanner: ScannerState,
    pub settings: SettingsState,
    pub decoder: DecoderPool,
    pub playing: bool,
    /// When the pictures on display last changed.
    pub last_advance: u64,
    pub fullscreen: bool,
    pub menu_open: bool,
    /// The picture that the open menu is for.
    pub menu_target: Option<String>,
    /// A message, and when it goes away.
    pub error: Option<(String, u64)>,
    /// What was left of the interval when the advance was frozen.
    pub advance_frozen_remaining: Option<u64>,
    pub advance_freeze_active: bool,
    /// The state differs from the one on disk.
    pub state_dirty: bool,
    pub last_saved: u64,
    /// Where the state is written.
    pub save_path: Option<String>,
    /// Failed moves of oversized pictures, by path.
    pub oversized_attempts: StringHashMap<u32>,
    /// A message that must be acknowledged.
    pub oversized_blocked_msg: Option<String>,
    /// The slideshow has stopped until a folder is chosen.
    pub halted: bool,
}

/// What a [`ShufflePicApp`] holds.
#[verifier::ext_equal]
pub struct App {
    pub pb: Playback,
    pub cache: Cache,
    pub last_rescan: u64,
    pub rescan_interval: u64,
    pub settings: Settings,
    pub pool: Pool,
    pub playing: bool,
    pub last_advance: u64,
    pub fullscreen: bool,
    pub menu_open: bool,
    pub menu_target: Option<Seq<char>>,
    pub error: Option<(Seq<char>, u64)>,
    pub frozen_remaining: Option<u64>,
    pub freeze_active: bool,
    pub dirty: bool,
    pub last_saved: u64,
    pub save_path: Option<Seq<char>>,
    pub attempts: Map<Seq<char>, u32>,
    pub blocked_msg: Option<Seq<char>>,
    pub halted: bool,
}

/// The text and the end of a message.
pub open spec fn error_view(error: Option<(String, u64)>) -> Option<(Seq<char>, u64)> {
    match error {
        Some((text, end)) => Some((text@, end)),
        None => None,
    }
}

impl View for ShufflePicApp {
    type V = App;

    open spec fn view(&self) -> App {
        App {
            pb: self.playback@,
            cache: self.cache@,
            last_rescan: self.scanner.last_rescan,
            rescan_interval: self.scanner.interval,
            settings: self.settings@,
            pool: self.decoder@,
            playing: self.playing,
            last_advance: self.last_advance,
            fullscreen: self.fullscreen,
            menu_open: self.menu_open,
            menu_target: name_of(self.menu_target),
            error: error_view(self.error),
            frozen_remaining: self.advance_frozen_remaining,
            freeze_active: self.advance_freeze_active,
            dirty: self.state_dirty,
            last_saved: self.last_saved,
            save_path: name_of(self.save_path),
            attempts: self.oversized_attempts@,
            blocked_msg: name_of(self.oversized_blocked_msg),
            halted: self.halted,
        }
    }
}

/// The time from `then` to `now`, or 0 where `then` is later.
pub open spec fn elapsed(then: u64, now: u64) -> u64 {
    if now < then {
        0
    } else {
        (now - then) as u64
    }
}

/// `a - b`, or 0 where `b` is larger.
pub open spec fn time_left(a: u64, b: u64) -> u64 {
    if a < b {
        0
    } else {
        (a - b) as u64
    }
}

impl App {
    /// The time between two pictures.
    pub open spec fn interval(self) -> u64 {
        (self.settings.interval_secs * NANOS_PER_SEC) as u64
    }

    /// A message is shown from `now` on.
    pub open spec fn with_error(self, text: Seq<char>, now: u64) -> App {
        App {
            error: Some((text, (now + ERROR_MSG_SECS * NANOS_PER_SEC) as u64)),
            ..self
        }
    }

    /// A new epoch has been announced, and the state is to be saved.
    pub open spec fn order_changed(self) -> App {
        let cache = self.cache.bumped();
        App {
            cache,
            pool: self.pool.with_epoch(cache.epoch),
            dirty: true,
            ..self
        }
    }

    /// How many pictures are on display.
    pub open spec fn shown(self) -> int {
        if self.cache.window.len() < self.settings.display_count {
            self.cache.window.len() as int
        } else {
            self.settings.display_count as int
        }
    }

    /// The next pictures are on display; the ones that were are remembered.
    pub open spec fn advanced(self) -> App {
        let shown = self.shown();
        if shown == 0 || self.pb.order.len() == 0 {
            self
        } else {
            App {
                pb: Playback {
                    cursor: self.pb.cursor + shown,
                    last_shown: Seq::new(
                        shown as nat,
                        |i: int| self.cache.window[i].path,
                    ),
                    ..self.pb
                },
                cache: Cache { blocked: false, ..self.cache.without_first(shown) },
                ..self
            }
        }
    }
}

/// A slideshow that starts at `now`.
pub open spec fn started(
    settings: Settings,
    pb: Playback,
    pool: Pool,
    save_path: Option<Seq<char>>,
    now: u64,
) -> App {
    App {
        pb,
        cache: Cache::empty(),
        last_rescan: now,
        rescan_interval: (RESCAN_INTERVAL_SECS * NANOS_PER_SEC) as u64,
        settings,
        pool,
        playing: true,
        last_advance: now,
        fullscreen: false,
        menu_open: false,
        menu_target: None,
        error: None,
        frozen_remaining: None,
        freeze_active: false,
        dirty: false,
        last_saved: now,
        save_path,
        attempts: Map::empty(),
        blocked_msg: None,
        halted: false,
    }
}

/// The first place of a path in the window.
pub open spec fn window_place(cache: Cache, path: Seq<char>) -> Option<int> {
    cache.window.map_values(|s: Slot| s.path).index_of_first(path)
}

pub fn time_since(then: u64, now: u64) -> (t: u64)
    ensures
        t == elapsed(then, now),
{
    if now < then {
        0
    } else {
        now - then
    }
}

pub fn left_of(a: u64, b: u64) -> (t: u64)
    ensures
        t == time_left(a, b),
{
    if a < b {
        0
    } else {
        a - b
    }
}

impl ShufflePicApp {
    /// A slideshow that starts at `now`.
    pub fn new(
        settings: SettingsState,
        playback: PlaybackState,
        decoder: DecoderPool,
        save_path: Option<String>,
        now: u64,
    ) -> (app: Self)
        ensures
            app.decoder == decoder,
            app@ == started(settings@, playback@, decoder@, name_of(save_path), now),
    {
        Self {
            playback,
            cache: CacheState::new(),
            scanner: ScannerState::new(RESCAN_INTERVAL_SECS * NANOS_PER_SEC, now),
            settings,
            decoder,
            playing: true,
            last_advance: now,
            fullscreen: false,
            menu_open: false,
            menu_target: None,
            error: None,
            advance_frozen_remaining: None,
            advance_freeze_active: false,
            state_dirty: false,
            last_saved: now,
            save_path,
            oversized_attempts: StringHashMap::new(),
            oversized_blocked_msg: None,
            halted: false,
        }
    }

    /// Shows a message for [`ERROR_MSG_SECS`].
    pub fn set_error(&mut self, text: String, now: u64)
        requires
            now + ERROR_MSG_SECS * NANOS_PER_SEC <= u64::MAX,
        ensures
            final(self)@ == old(self)@.with_error(text@, now),
    {
        self.error = Some((text, now + ERROR_MSG_SECS * NANOS_PER_SEC));
        assert(self@ =~= old(self)@.with_error(text@, now));
    }

    /// The time between two pictures.
    pub fn interval(&self) -> (nanos: u64)
        requires
            self@.settings.wf(),
        ensures
            nanos == self@.interval(),
            nanos == self@.settings.interval_secs * NANOS_PER_SEC,
    {
        self.settings.interval_secs * NANOS_PER_SEC
    }

    /// Goes on to the next pictures.
    pub fn advance(&mut self)
        requires
            old(self)@.pb.cursor + old(self)@.shown() <= usize::MAX,
        ensures
            final(self)@ == old(self)@.advanced(),
            old(self)@.cache.covers() ==> final(self)@.cache.covers(),
            final(self).settings == old(self).settings,
            old(self).playback.play_order.len() > 0 ==> final(self).playback.cursor == old(
                self,
            ).playback.cursor + (if old(self).cache.window.len()
                < old(self).settings.display_count {
                old(self).cache.window.len()
            } else {
                old(self).settings.display_count
            }),
    {
        let ghost start = self@;
        let ghost settings = self.settings;
        let shown: usize = if self.cache.window.len() < self.settings.display_count {
            self.cache.window.len()
        } else {
            self.settings.display_count
        };
        if shown == 0 || self.playback.play_order.len() == 0 {
            return;
        }
        let mut last_shown: Vec<String> = Vec::new();
        let mut i: usize = 0;
        assert(names(last_shown@) =~= Seq::empty());
        while i < shown
            invariant
                i <= shown == start.shown(),
                start.cache.window.len() == self@.cache.window.len() + i,
                shown <= start.cache.window.len(),
                self.settings == settings,
                self@ == (App { cache: self@.cache, ..start }),
                forall|j: int|
                    0 <= j < self@.cache.window.len() ==> #[trigger] self@.cache.window[j]
                        == start.cache.window[j + i],
                start.cache.without_first(shown as int) == self@.cache.without_first(shown - i),
                names(last_shown@) =~= Seq::new(
                    i as nat,
                    |j: int| start.cache.window[j].path,
                ),
            decreases shown - i,
        {
            let ghost before = self@;
            if let Some(path) = self.cache.evict_front() {
                proof {
                    assert(before.cache.window[0] == start.cache.window[i as int]);
                    lemma_names_push(last_shown@, path);
                }
                last_shown.push(path);
            }
            proof {
                assert forall|j: int| 0 <= j < self@.cache.window.len() implies
                    #[trigger] self@.cache.window[j] == start.cache.window[j + i + 1] by {
                    assert(before.cache.window[j + 1] == start.cache.window[j + 1 + i]);
                }
                assert(self@ =~= (App { cache: self@.cache, ..start }));
            }
            i = i + 1;
        }
        self.playback.last_shown = last_shown;
        self.cache.preload_blocked_by_vram = false;
        self.playback.cursor = self.playback.cursor + shown;
        assert(self@ =~= start.advanced());
        proof {
            lemma_without_first_ready(start.cache, shown as int);
        }
    }
}

pub const DELETE_CANCELLED: &'static str = "対象画像が切り替わったため削除をキャンセルしました";

pub const DELETE_FAILED: &'static str = "削除に失敗しました: ";

pub const NOT_A_FOLDER: &'static str = "指定がフォルダではありません";

pub const SAVE_FAILED: &'static str = "状態の保存に失敗しました: ";

pub const BLOCKED_HEAD: &'static str =
    "退避できない画像があるため、スライドショーを停止しました。\n\nファイル名: ";

pub const BLOCKED_PLACE: &'static str = "\n場所: ";

pub const BLOCKED_CAUSE: &'static str = "\n原因: ";

pub const BLOCKED_TAIL: &'static str =
    "\n\n未表示の残りも表示できない画像の可能性が高いため停止します。\nこの画像（および他の不適切な画像）を手動で処理してから、\n「⚙ 設定」でフォルダを選び直すか、アプリを再起動してください。";

/// The message for a picture that could not be moved away.
pub open spec fn blocked_text(name: Seq<char>, path: Seq<char>, error: Seq<char>) -> Seq<char> {
    BLOCKED_HEAD@ + name + BLOCKED_PLACE@ + path + BLOCKED_CAUSE@ + error + BLOCKED_TAIL@
}

/// The name that a message has for a picture: that of the file, or the whole
/// path where it has none.
pub open spec fn shown_name(file_name: Option<String>, path: Seq<char>) -> Seq<char> {
    match file_name {
        Some(name) => name@,
        None => path,
    }
}

/// What became known about a picture that is to be deleted.
pub enum DeleteEvent {
    /// The user asked for it.
    Asked,
    /// Whether the folder for deleted pictures could be had.
    Prepared(Result<(), String>),
    /// Whether the picture was moved there.
    Moved(Result<(), String>),
}

/// The picture was moved.
pub open spec fn was_moved(event: DeleteEvent) -> bool {
    match event {
        DeleteEvent::Moved(Ok(())) => true,
        _ => false,
    }
}

/// What to do next about a picture that is to be deleted.
#[derive(Debug, Clone, Copy, PartialEq, Eq, Structural)]
pub enum DeleteAction {
    /// Make sure of the folder for deleted pictures.
    Prepare,
    /// Move the picture there.
    Move,
    /// Nothing is to be done any more.
    Stop,
}

/// The state after an event of a deletion, and what to do next. The folder is
/// made sure of first; then the picture must still be in the window; when it
/// was moved, it leaves the slideshow.
pub open spec fn deleted(app: App, target: Seq<char>, event: DeleteEvent, now: u64) -> (
    App,
    DeleteAction,
) {
    if app.settings.folder is None {
        (app, DeleteAction::Stop)
    } else {
        match event {
            DeleteEvent::Asked => (app, DeleteAction::Prepare),
            DeleteEvent::Prepared(Err(e)) => (app.with_error(e@, now), DeleteAction::Stop),
            DeleteEvent::Prepared(Ok(())) => if window_place(app.cache, target) is Some {
                (app, DeleteAction::Move)
            } else {
                (app.with_error(DELETE_CANCELLED@, now), DeleteAction::Stop)
            },
            DeleteEvent::Moved(Err(e)) => (
                app.with_error(DELETE_FAILED@ + e@, now),
                DeleteAction::Stop,
            ),
            DeleteEvent::Moved(Ok(())) => match window_place(app.cache, target) {
                Some(i) => (
                    App {
                        pb: Playback { order: app.pb.order.remove_value(target), ..app.pb },
                        cache: Cache { blocked: false, ..app.cache.without(i) },
                        ..app
                    }.order_changed(),
                    DeleteAction::Stop,
                ),
                None => (app.with_error(DELETE_CANCELLED@, now), DeleteAction::Stop),
            },
        }
    }
}

/// What became known about an oversized picture.
pub enum OversizedEvent {
    /// Its size now, if it is there.
    Sized(Option<(u32, u32)>),
    /// Whether the folder for oversized pictures could be had.
    Prepared(Result<(), String>),
    /// It was moved there.
    Moved,
    /// It could not be moved.
    NotMoved { file_name: Option<String>, error: String },
}

/// What to do next about an oversized picture.
#[derive(Debug, Clone, Copy, PartialEq, Eq, Structural)]
pub enum OversizedAction {
    /// Make sure of the folder for oversized pictures.
    Prepare,
    /// Move the picture there.
    Move,
    /// Go on with the next picture.
    Next,
    /// Leave the other pictures alone.
    Stop,
}

/// How often the move of a path has failed.
pub open spec fn attempt_count(attempts: Map<Seq<char>, u32>, path: Seq<char>) -> int {
    if attempts.contains_key(path) {
        attempts[path] as int
    } else {
        0
    }
}

/// The picture goes back to the end of the order.
pub open spec fn requeued(app: App, path: Seq<char>) -> App {
    App { pb: Playback { order: app.pb.order.push(path), ..app.pb }, ..app }
}

/// The state after an event of an oversized picture. A picture that fits goes
/// back into the order, and so does one that could not be moved; when a move has
/// failed too often, the slideshow halts.
pub open spec fn oversized_handled(
    app: App,
    path: Seq<char>,
    event: OversizedEvent,
    now: u64,
) -> App {
    match event {
        OversizedEvent::Sized(Some((w, h))) => if oversized(w, h) {
            app
        } else {
            requeued(app, path)
        },
        OversizedEvent::Sized(None) => app,
        OversizedEvent::Prepared(Ok(())) => app,
        OversizedEvent::Prepared(Err(e)) => app.with_error(e@, now),
        OversizedEvent::Moved => App { attempts: app.attempts.remove(path), ..app },
        OversizedEvent::NotMoved { file_name, error } => {
            let count = attempt_count(app.attempts, path) + 1;
            if count >= MAX_OVERSIZED_MOVE_ATTEMPTS {
                App {
                    blocked_msg: Some(blocked_text(shown_name(file_name, path), path, error@)),
                    playing: false,
                    halted: true,
                    attempts: app.attempts.remove(path),
                    ..requeued(app, path)
                }
            } else {
                App {
                    attempts: app.attempts.insert(path, count as u32),
                    ..requeued(app, path)
                }
            }
        },
    }
}

/// What to do after an event of an oversized picture. One that is still too
/// large is moved, even where its folder could not be made sure of.
pub open spec fn oversized_action(
    app: App,
    path: Seq<char>,
    event: OversizedEvent,
) -> OversizedAction {
    match event {
        OversizedEvent::Sized(Some((w, h))) => if oversized(w, h) {
            OversizedAction::Prepare
        } else {
            OversizedAction::Next
        },
        OversizedEvent::Sized(None) => OversizedAction::Next,
        OversizedEvent::Prepared(_) => OversizedAction::Move,
        OversizedEvent::Moved => OversizedAction::Next,
        OversizedEvent::NotMoved { .. } => if attempt_count(app.attempts, path) + 1
            >= MAX_OVERSIZED_MOVE_ATTEMPTS {
            OversizedAction::Stop
        } else {
            OversizedAction::Next
        },
    }
}

/// The event puts the picture back into the order.
pub open spec fn requeues(event: OversizedEvent) -> bool {
    match event {
        OversizedEvent::Sized(Some((w, h))) => !oversized(w, h),
        OversizedEvent::NotMoved { .. } => true,
        _ => false,
    }
}

/// The state when the oversized pictures have been dealt with, by whether that
/// has changed the order.
pub open spec fn oversized_finished(app: App, changed: bool) -> App {
    if changed {
        app.order_changed()
    } else {
        app
    }
}

/// What became known about a folder that was chosen.
pub enum FolderEvent {
    /// Whether it is the folder that is shown already.
    Compared(bool),
    /// Whether it is a folder.
    Looked(bool),
    /// Whether the folder for deleted pictures could be had.
    DeletePrepared(Result<(), String>),
    /// Whether the folder for oversized pictures could be had.
    OversizedPrepared(Result<(), String>),
    /// The pictures in it.
    Scanned { folder: String, paths: Vec<String> },
}

/// What to do next about a folder that was chosen.
#[derive(Debug, Clone, Copy, PartialEq, Eq, Structural)]
pub enum FolderAction {
    Look,
    PrepareDelete,
    PrepareOversized,
    Scan,
    /// The folder is shown; save the state.
    Save,
    /// Nothing is to be done any more.
    Stop,
}

/// The state after the reset to a folder, with the order in which its pictures
/// are shown.
pub open spec fn reset_to(app: App, folder: Seq<char>, order: Seq<Seq<char>>) -> App {
    let cache = emptied(app.cache);
    App {
        pb: restored(order, 0, 0, Seq::empty()),
        cache,
        pool: app.pool.with_epoch(cache.epoch),
        settings: Settings { folder: Some(folder), ..app.settings },
        attempts: Map::empty(),
        blocked_msg: None,
        playing: true,
        halted: false,
        dirty: true,
        ..app
    }
}

/// What is done about a folder that was chosen, and what to do next.
pub open spec fn folder_followed(
    app: App,
    event: FolderEvent,
    now: u64,
    end: App,
    action: FolderAction,
) -> bool {
    match event {
        FolderEvent::Compared(same) => {
            &&& end == app
            &&& action == if same && !app.halted && app.settings.folder is Some {
                FolderAction::Stop
            } else {
                FolderAction::Look
            }
        },
        FolderEvent::Looked(is_dir) => if is_dir {
            end == app && action == FolderAction::PrepareDelete
        } else {
            end == app.with_error(NOT_A_FOLDER@, now) && action == FolderAction::Stop
        },
        FolderEvent::DeletePrepared(outcome) => match outcome {
            Ok(()) => end == app && action == FolderAction::PrepareOversized,
            Err(e) => end == app.with_error(e@, now) && action == FolderAction::Stop,
        },
        FolderEvent::OversizedPrepared(outcome) => match outcome {
            Ok(()) => end == app && action == FolderAction::Scan,
            Err(e) => end == app.with_error(e@, now) && action == FolderAction::Stop,
        },
        FolderEvent::Scanned { folder, paths } => {
            &&& rearranged(names(paths@), end.pb.order)
            &&& end == reset_to(app, folder@, end.pb.order)
            &&& action == FolderAction::Save
        },
    }
}

/// The state after the state was written, or not.
pub open spec fn save_noted(app: App, outcome: Result<(), String>, now: u64) -> App {
    match outcome {
        Ok(()) => App { dirty: false, last_saved: now, ..app },
        Err(e) => app.with_error(SAVE_FAILED@ + e@, now),
    }
}

/// The state as it is written to disk.
pub open spec fn saved_state(app: App, folder: Seq<char>) -> Saved {
    Saved {
        schema_version: PERSIST_SCHEMA_VERSION,
        folder,
        interval_secs: app.settings.interval_secs,
        display_count: app.settings.display_count,
        order: app.pb.order,
        cursor: app.pb.cursor,
        cycle: app.pb.cycle,
        last_shown: app.pb.last_shown,
    }
}

/// A restart goes on where the slideshow was when its state was written, while
/// the folder has the same pictures: the settings, the order and the cursor
/// come back, and the pictures last shown, where they are in the order and two
/// at most.
pub proof fn law_restart_resumes(
    app: App,
    folder: Seq<char>,
    scanned: Seq<Seq<char>>,
    order: Seq<Seq<char>>,
    cursor: int,
    last_shown: Seq<Seq<char>>,
)
    requires
        app.settings.wf(),
        app.pb.order.no_duplicates(),
        0 <= app.pb.cursor <= app.pb.order.len(),
        forall|p: Seq<char>| #[trigger] scanned.contains(p) <==> app.pb.order.contains(p),
        reconciled(saved_state(app, folder), scanned, order, cursor, last_shown),
    ensures
        clamped_interval(saved_state(app, folder).interval_secs) == app.settings.interval_secs,
        clamped_count(saved_state(app, folder).display_count) == app.settings.display_count,
        order == app.pb.order,
        cursor == app.pb.cursor,
        app.pb.last_shown.len() <= 2 && (forall|i: int|
            0 <= i < app.pb.last_shown.len() ==> app.pb.order.contains(
                #[trigger] app.pb.last_shown[i],
            )) ==> last_shown == app.pb.last_shown,
{
    law_unchanged_folder_resumes(
        saved_state(app, folder),
        scanned,
        order,
        cursor,
        last_shown,
    );
}

impl ShufflePicApp {
    fn place_in_window(&self, path: &String) -> (place: Option<usize>)
        ensures
            match place {
                Some(i) => i < self@.cache.window.len() && window_place(self@.cache, path@)
                    == Some(i as int),
                None => window_place(self@.cache, path@) is None,
            },
    {
        let ghost paths = self@.cache.window.map_values(|s: Slot| s.path);
        let mut i: usize = 0;
        while i < self.cache.window.len()
            invariant
                i <= self.cache.window.len(),
                paths == self@.cache.window.map_values(|s: Slot| s.path),
                forall|j: int| 0 <= j < i ==> #[trigger] paths[j] != path@,
            decreases self.cache.window.len() - i,
        {
            assert(paths[i as int] == self.cache.window@[i as int].path@);
            if self.cache.window[i].path == *path {
                proof {
                    paths.index_of_first_ensures(path@);
                }
                return Some(i);
            }
            i = i + 1;
        }
        proof {
            paths.index_of_first_ensures(path@);
        }
        None
    }

    /// Goes on with the deletion of a picture: from what became known to what to
    /// do next. A picture that was moved away leaves the slideshow.
    pub fn do_delete_path(&mut self, target: &String, event: DeleteEvent, now: u64) -> (action:
        DeleteAction)
        requires
            now + ERROR_MSG_SECS * NANOS_PER_SEC <= u64::MAX,
        ensures
            (final(self)@, action) == deleted(old(self)@, target@, event, now),
    {
        let ghost start = self@;
        if self.settings.folder.is_none() {
            return DeleteAction::Stop;
        }
        match event {
            DeleteEvent::Asked => DeleteAction::Prepare,
            DeleteEvent::Prepared(Err(e)) => {
                self.set_error(e, now);
                DeleteAction::Stop
            },
            DeleteEvent::Prepared(Ok(())) => match self.place_in_window(target) {
                Some(_) => DeleteAction::Move,
                None => {
                    self.set_error(DELETE_CANCELLED.to_owned(), now);
                    DeleteAction::Stop
                },
            },
            DeleteEvent::Moved(Err(e)) => {
                let mut text = DELETE_FAILED.to_owned();
                text.append(e.as_str());
                self.set_error(text, now);
                DeleteAction::Stop
            },
            DeleteEvent::Moved(Ok(())) => match self.place_in_window(target) {
                Some(i) => {
                    self.cache.evict_at(i);
                    remove_first(&mut self.playback.play_order, target);
                    self.cache.preload_blocked_by_vram = false;
                    self.cache.bump_epoch(&mut self.decoder);
                    self.state_dirty = true;
                    proof {
                        let gone = App {
                            pb: Playback {
                                order: start.pb.order.remove_value(target@),
                                ..start.pb
                            },
                            cache: Cache { blocked: false, ..start.cache.without(i as int) },
                            ..start
                        };
                        assert(self@ =~= gone.order_changed());
                    }
                    DeleteAction::Stop
                },
                None => {
                    self.set_error(DELETE_CANCELLED.to_owned(), now);
                    DeleteAction::Stop
                },
            },
        }
    }

    /// Goes on with an oversized picture: from what became known to what to do
    /// next. Says as well whether the play order has changed.
    pub fn handle_oversized(&mut self, path: &String, event: OversizedEvent, now: u64) -> (next: (
        OversizedAction,
        bool,
    ))
        requires
            now + ERROR_MSG_SECS * NANOS_PER_SEC <= u64::MAX,
        ensures
            final(self)@ == oversized_handled(old(self)@, path@, event, now),
            next.0 == oversized_action(old(self)@, path@, event),
            next.1 == requeues(event),
    {
        let ghost start = self@;
        match event {
            OversizedEvent::Sized(Some((w, h))) => {
                if is_oversized(w, h) {
                    (OversizedAction::Prepare, false)
                } else {
                    self.requeue(path);
                    (OversizedAction::Next, true)
                }
            },
            OversizedEvent::Sized(None) => (OversizedAction::Next, false),
            OversizedEvent::Prepared(Ok(())) => (OversizedAction::Move, false),
            OversizedEvent::Prepared(Err(e)) => {
                self.set_error(e, now);
                (OversizedAction::Move, false)
            },
            OversizedEvent::Moved => {
                self.oversized_attempts.remove(path.as_str());
                assert(self@ =~= (App { attempts: start.attempts.remove(path@), ..start }));
                (OversizedAction::Next, false)
            },
            OversizedEvent::NotMoved { file_name, error } => {
                let before: u32 = match self.oversized_attempts.get(path.as_str()) {
                    Some(n) => *n,
                    None => 0,
                };
                self.requeue(path);
                if before >= MAX_OVERSIZED_MOVE_ATTEMPTS - 1 {
                    let mut text = BLOCKED_HEAD.to_owned();
                    match &file_name {
                        Some(name) => text.append(name.as_str()),
                        None => text.append(path.as_str()),
                    }
                    text.append(BLOCKED_PLACE);
                    text.append(path.as_str());
                    text.append(BLOCKED_CAUSE);
                    text.append(error.as_str());
                    text.append(BLOCKED_TAIL);
                    self.oversized_blocked_msg = Some(text);
                    self.playing = false;
                    self.halted = true;
                    self.oversized_attempts.remove(path.as_str());
                    assert(self@ =~= oversized_handled(start, path@, event, now));
                    (OversizedAction::Stop, true)
                } else {
                    self.oversized_attempts.insert(path.clone(), before + 1);
                    assert(self@ =~= oversized_handled(start, path@, event, now));
                    (OversizedAction::Next, true)
                }
            },
        }
    }

    fn requeue(&mut self, path: &String)
        ensures
            final(self)@ == requeued(old(self)@, path@),
    {
        let again = path.clone();
        proof {
            lemma_names_push(self.playback.play_order@, again);
        }
        self.playback.play_order.push(again);
        assert(self@ =~= requeued(old(self)@, path@));
    }

    /// Starts a new epoch after the oversized pictures have been dealt with,
    /// where that has changed the play order.
    pub fn finish_oversized(&mut self, changed: bool)
        ensures
            final(self)@ == oversized_finished(old(self)@, changed),
    {
        if changed {
            self.cache.bump_epoch(&mut self.decoder);
            self.state_dirty = true;
            assert(self@ =~= old(self)@.order_changed());
        }
    }

    /// Goes on with the change to another folder: from what became known to
    /// what to do next. The slideshow is reset only when the folder is known to
    /// be usable; choosing the folder that is shown already does nothing unless
    /// the slideshow has halted.
    pub fn change_folder(&mut self, event: FolderEvent, now: u64) -> (action: FolderAction)
        requires
            now + ERROR_MSG_SECS * NANOS_PER_SEC <= u64::MAX,
        ensures
            folder_followed(old(self)@, event, now, final(self)@, action),
            final(self).settings.interval_secs == old(self).settings.interval_secs,
            final(self).settings.display_count == old(self).settings.display_count,
    {
        let ghost start = self@;
        match event {
            FolderEvent::Compared(same) => {
                if same && !self.halted && self.settings.folder.is_some() {
                    FolderAction::Stop
                } else {
                    FolderAction::Look
                }
            },
            FolderEvent::Looked(is_dir) => {
                if is_dir {
                    FolderAction::PrepareDelete
                } else {
                    self.set_error(NOT_A_FOLDER.to_owned(), now);
                    FolderAction::Stop
                }
            },
            FolderEvent::DeletePrepared(outcome) => match outcome {
                Ok(()) => FolderAction::PrepareOversized,
                Err(e) => {
                    self.set_error(e, now);
                    FolderAction::Stop
                },
            },
            FolderEvent::OversizedPrepared(outcome) => match outcome {
                Ok(()) => FolderAction::Scan,
                Err(e) => {
                    self.set_error(e, now);
                    FolderAction::Stop
                },
            },
            FolderEvent::Scanned { folder, paths } => {
                self.cache.evict_all();
                self.cache.current_vram = 0;
                self.cache.preload_blocked_by_vram = false;
                self.cache.bump_epoch(&mut self.decoder);
                assert(self.cache@ =~= emptied(start.cache));
                self.oversized_attempts.clear();
                self.playback = PlaybackState::new(paths);
                self.settings.folder = Some(folder);
                self.halted = false;
                self.oversized_blocked_msg = None;
                self.playing = true;
                self.state_dirty = true;
                assert(self@ =~= reset_to(start, folder@, self@.pb.order));
                FolderAction::Save
            },
        }
    }

    /// The state to write to disk, if a folder has been chosen.
    pub fn persist_state(&self) -> (state: Option<PersistState>)
        ensures
            match self@.settings.folder {
                Some(folder) => state matches Some(state) && state@ == saved_state(self@, folder),
                None => state is None,
            },
    {
        match &self.settings.folder {
            Some(folder) => Some(
                PersistState {
                    schema_version: PERSIST_SCHEMA_VERSION,
                    folder: folder.clone(),
                    interval_secs: self.settings.interval_secs,
                    display_count: self.settings.display_count,
                    play_order: self.playback.play_order.clone(),
                    cursor: self.playback.cursor,
                    cycle_count: self.playback.cycle_count,
                    last_shown: self.playback.last_shown.clone(),
                },
            ),
            None => None,
        }
    }

    /// Takes note of whether the state was written.
    pub fn save_now(&mut self, outcome: Result<(), String>, now: u64)
        requires
            now + ERROR_MSG_SECS * NANOS_PER_SEC <= u64::MAX,
        ensures
            final(self)@ == save_noted(old(self)@, outcome, now),
    {
        match outcome {
            Ok(()) => {
                self.state_dirty = false;
                self.last_saved = now;
                assert(self@ =~= (App { dirty: false, last_saved: now, ..old(self)@ }));
            },
            Err(e) => {
                let mut text = SAVE_FAILED.to_owned();
                text.append(e.as_str());
                self.set_error(text, now);
            },
        }
    }
}

/// The state after the move of a picture has failed `n` times.
pub open spec fn moves_failed(
    app: App,
    path: Seq<char>,
    file_name: Option<String>,
    error: String,
    n: int,
) -> App
    decreases n,
{
    if n <= 0 {
        app
    } else {
        oversized_handled(
            moves_failed(app, path, file_name, error, n - 1),
            path,
            OversizedEvent::NotMoved { file_name, error },
            0,
        )
    }
}

/// The slideshow goes on while a move has failed less than
/// [`MAX_OVERSIZED_MOVE_ATTEMPTS`] times, and halts, with a message, when it has
/// failed so often.
pub proof fn law_halts_after_failed_moves(
    app: App,
    path: Seq<char>,
    file_name: Option<String>,
    error: String,
    n: int,
)
    requires
        !app.attempts.contains_key(path),
        0 <= n <= MAX_OVERSIZED_MOVE_ATTEMPTS,
    ensures
        ({
            let next = moves_failed(app, path, file_name, error, n);
            if n < MAX_OVERSIZED_MOVE_ATTEMPTS {
                &&& next.halted == app.halted
                &&& next.playing == app.playing
                &&& next.blocked_msg == app.blocked_msg
                &&& attempt_count(next.attempts, path) == n
            } else {
                &&& next.halted
                &&& !next.playing
                &&& next.blocked_msg == Some(
                    blocked_text(shown_name(file_name, path), path, error@),
                )
                &&& attempt_count(next.attempts, path) == 0
            }
        }),
    decreases n,
{
    if n > 0 {
        law_halts_after_failed_moves(app, path, file_name, error, n - 1);
    }
}

} // verus!
