//! One frame of the slideshow: the steps that [`ShufflePicApp`] takes between
//! two pictures on the screen, in this order: the look at the folder, the
//! refill, the input, the freeze of the advance, the actions, the advance, the
//! second refill, the end of the cycle, and what is left to do by the clock.

use crate::app::{elapsed, left_of, time_left, time_since, App, ShufflePicApp, NANOS_PER_SEC};
use crate::cache::{emptied, next_cycle, settle_cycle_or_empty, Cache, Settle};
use crate::paths::{lemma_rearranged, names, rearranged};
use crate::playback::{avoiding, law_shuffled_cycle_opens_fresh, tail_shuffled, Playback};
use crate::refill::{
    arrived, asked_all, can_refill, collected_all, drawn_at_size, issue_requests, refill_fits,
    refill_window, refilled, wanted_from, wants, Arrival, Asking, Frame, Wanted,
};
use crate::scanner::{
    promoted, rescan, rescanned, scan_view, FileStat, Scanned, ScannedFile,
};
use crate::settings::{apply_panel, name_of, panel_applied, PanelInput, Settings};
use crate::SAVE_THROTTLE_SECS;
use vstd::prelude::*;

verus! {

impl App {
    /// The slideshow goes on with a folder.
    pub open spec fn runs(self) -> bool {
        !self.halted && self.settings.folder is Some
    }

    /// A message waits to be acknowledged.
    pub open spec fn waits(self) -> bool {
        self.blocked_msg is Some
    }
}

/// What is shown where there is no picture.
#[derive(Debug, Clone, Copy, PartialEq, Eq, Structural)]
pub enum Notice {
    /// No folder is chosen.
    ChooseFolder,
    /// The folder has no pictures.
    NoPictures,
    /// Pictures are being decoded.
    Loading,
}

impl Notice {
    /// The text of the notice.
    pub fn text(&self) -> (text: &'static str)
        ensures
            text@ == match self {
                Notice::ChooseFolder => "設定からフォルダを選択してください"@,
                Notice::NoPictures => "画像がありません（空フォルダ状態）"@,
                Notice::Loading => "読み込み中..."@,
            },
    {
        match self {
            Notice::ChooseFolder => "設定からフォルダを選択してください",
            Notice::NoPictures => "画像がありません（空フォルダ状態）",
            Notice::Loading => "読み込み中...",
        }
    }
}

/// Which inputs are taken.
#[derive(Debug, Clone, Copy, PartialEq, Eq, Structural)]
pub struct Inputs {
    /// The keys for play and for the full screen.
    pub keys: bool,
    /// The button for play.
    pub play_button: bool,
    /// A double click for the full screen.
    pub double_click: bool,
    /// The settings panel and its button.
    pub panel: bool,
    /// What was wished for is done: play, full screen, deletion, another folder.
    pub actions: bool,
}

/// Which inputs are taken in a frame that begins like this.
pub open spec fn inputs_of(app: App) -> Inputs {
    Inputs {
        keys: !app.menu_open && !app.settings.show_panel && !app.waits(),
        play_button: !app.menu_open && !app.waits(),
        double_click: !app.menu_open,
        panel: !app.waits(),
        actions: !app.waits(),
    }
}

/// The state after what the user did in the settings panel; while a message
/// waits, the panel does nothing.
pub open spec fn panel_used(app: App, input: PanelInput) -> App {
    if app.waits() {
        app
    } else {
        App {
            settings: panel_applied(app.settings, input),
            dirty: app.dirty || input.interval_secs is Some || input.display_count is Some,
            ..app
        }
    }
}

/// The folder that was picked in the settings panel.
pub open spec fn panel_pick(app: App, input: PanelInput) -> Option<Seq<char>> {
    if app.waits() {
        None
    } else {
        name_of(input.folder)
    }
}

/// The settings panel was opened or closed, unless a message waits.
pub open spec fn panel_toggled(app: App) -> App {
    if app.waits() {
        app
    } else {
        App {
            settings: Settings { show_panel: !app.settings.show_panel, ..app.settings },
            ..app
        }
    }
}

/// How many pictures are drawn.
pub open spec fn drawn_count(app: App, display_count: usize) -> nat {
    if app.cache.window.len() < display_count {
        app.cache.window.len()
    } else {
        display_count as nat
    }
}

/// What is shown instead of pictures.
pub open spec fn notice_of(app: App, display_count: usize) -> Option<Notice> {
    if app.cache.window.len() > 0 && display_count > 0 {
        None
    } else if app.settings.folder is None {
        Some(Notice::ChooseFolder)
    } else if app.pb.order.len() == 0 {
        Some(Notice::NoPictures)
    } else {
        Some(Notice::Loading)
    }
}

/// The picture that a deletion from the menu of the `i`th picture is for.
pub open spec fn target_of(app: App, i: int) -> Seq<char> {
    match app.menu_target {
        Some(path) => path,
        None => app.cache.window[i].path,
    }
}

/// What the top bar counts.
#[derive(Debug, Clone, Copy, PartialEq, Eq, Structural)]
pub struct Counts {
    /// Pictures of this cycle that have been shown.
    pub shown: usize,
    /// Pictures of this cycle that are still to be shown.
    pub remaining: usize,
    /// Pictures in the window.
    pub cached: usize,
    pub cycle: u32,
}

/// The state after a look at the folder, whose effect on play and cache is
/// given.
pub open spec fn looked(app: App, pb: Playback, cache: Cache, changed: bool, now: u64) -> App {
    let next = App { pb, cache, last_rescan: now, ..app };
    if changed {
        next.order_changed()
    } else {
        next
    }
}

/// A look at the folder leads from one state to the other.
pub open spec fn rescans_to(
    app: App,
    files: Seq<Scanned>,
    stats: Seq<Option<FileStat>>,
    now: u64,
    end: App,
) -> bool {
    let (next, cache, changed) = rescanned(
        app.pb,
        app.cache,
        files,
        stats,
        app.settings.display_count as int,
    );
    let joined = promoted(app.pb.pending, stats, app.pb.pending.len() as int);
    let behind = next.cursor + cache.window.len();
    let order = end.pb.order;
    &&& end == looked(app, Playback { order, ..next }, cache, changed, now)
    &&& if joined.len() == 0 {
        order == next.order
    } else {
        tail_shuffled(next.order, order, behind)
    }
}

/// The state with the collected results, and the oversized pictures behind
/// those found before.
pub open spec fn collected_in(
    app: App,
    oversized: Seq<Seq<char>>,
    arrivals: Seq<Arrival>,
) -> Frame {
    collected_all(
        Frame { pb: app.pb, cache: app.cache, oversized, changed: false },
        arrived(arrivals),
        arrivals.len() as int,
    )
}

/// The state after a refill.
pub open spec fn refilled_app(app: App, f: Frame, display_count: int) -> App {
    let cache = refilled(f, display_count);
    App {
        pb: f.pb,
        cache,
        pool: if f.changed {
            app.pool.with_epoch(cache.epoch)
        } else {
            app.pool
        },
        dirty: app.dirty || f.changed,
        ..app
    }
}

/// The state after the freeze of the advance was switched to `frozen`: what is
/// left of the interval is kept while it is frozen, and goes on afterwards.
pub open spec fn freeze_switched(app: App, frozen: bool, now: u64) -> App {
    if !app.freeze_active && frozen {
        App {
            frozen_remaining: Some(time_left(app.interval(), elapsed(app.last_advance, now))),
            freeze_active: true,
            ..app
        }
    } else if app.freeze_active && !frozen {
        let left = match app.frozen_remaining {
            Some(left) => if left < app.interval() {
                left
            } else {
                app.interval()
            },
            None => app.interval(),
        };
        let passed = time_left(app.interval(), left);
        App {
            last_advance: if now < passed {
                now
            } else {
                (now - passed) as u64
            },
            frozen_remaining: None,
            freeze_active: false,
            ..app
        }
    } else {
        app
    }
}

/// Play was switched on or off; switched on, a full interval begins.
pub open spec fn play_toggled(app: App, now: u64) -> App {
    if app.playing {
        App { playing: false, ..app }
    } else {
        App { playing: true, last_advance: now, frozen_remaining: None, ..app }
    }
}

/// A menu is open or not; what it is for is forgotten when it is closed and
/// nothing is to be deleted.
pub open spec fn menu_noted(app: App, open: bool, deleting: bool) -> App {
    App {
        menu_open: open,
        menu_target: if !open && !deleting {
            None
        } else {
            app.menu_target
        },
        ..app
    }
}

/// What the user wished for was done, unless they were `blocked` by a message.
pub open spec fn wished(app: App, fullscreen: bool, play: bool, blocked: bool, now: u64) -> App {
    let screen = if fullscreen {
        App { fullscreen: !app.fullscreen, ..app }
    } else {
        app
    };
    if blocked {
        app
    } else if play {
        play_toggled(screen, now)
    } else {
        screen
    }
}

/// What the user did with the pictures on display and with the keys.
#[derive(Debug, Clone, Copy, PartialEq, Eq, Structural)]
pub struct Gestures {
    /// Play is to be switched on or off.
    pub play: bool,
    /// The full screen is to be switched on or off.
    pub fullscreen: bool,
    /// A picture is to be deleted.
    pub delete: bool,
    /// A menu is open.
    pub menu_open: bool,
}

/// The advance is frozen while a menu or the panel is open, or a message
/// waited.
pub open spec fn is_frozen(app: App, blocked: bool) -> bool {
    app.menu_open || app.settings.show_panel || blocked
}

/// The state after the gestures: the menu is noted, the freeze of the advance
/// is switched, and the wishes are done.
pub open spec fn gestures_taken(app: App, g: Gestures, blocked: bool, now: u64) -> App {
    let menu = menu_noted(app, g.menu_open, g.delete);
    let frozen = freeze_switched(menu, is_frozen(menu, blocked), now);
    wished(frozen, g.fullscreen, g.play, blocked, now)
}

/// The advance is due.
pub open spec fn advance_due(app: App, suppressed: bool, now: u64) -> bool {
    &&& app.playing
    &&& !app.halted
    &&& !app.freeze_active
    &&& !suppressed
    &&& app.pb.order.len() > 0
    &&& elapsed(app.last_advance, now) >= app.interval()
}

/// The state after the advance, if it was due.
pub open spec fn advanced_if_due(app: App, suppressed: bool, now: u64) -> App {
    if advance_due(app, suppressed, now) {
        App { last_advance: now, dirty: true, ..app.advanced() }
    } else {
        app
    }
}

/// What the end of a frame leads to.
pub open spec fn settled_as(app: App) -> Settle {
    if app.halted {
        Settle::Unchanged
    } else if app.pb.order.len() == 0 {
        if app.pb.empty_active {
            Settle::Unchanged
        } else {
            Settle::Empty
        }
    } else if app.cache.window.len() == 0 && app.pb.cursor >= app.pb.order.len() {
        Settle::CycleBoundary
    } else {
        Settle::Unchanged
    }
}

/// What the end of a frame may do: nothing, but for noting whether there are
/// pictures; the move to the empty state; or the move to a new cycle, whose
/// order is shuffled and then kept from opening with the pictures last shown.
pub open spec fn settles_to(a: App, b: App) -> bool {
    match settled_as(a) {
        Settle::Unchanged => b == if a.halted {
            a
        } else {
            App { pb: Playback { empty_active: a.pb.order.len() == 0, ..a.pb }, ..a }
        },
        Settle::Empty => b == (App {
            pb: Playback { cursor: 0, empty_active: true, ..a.pb },
            cache: emptied(a.cache),
            pool: a.pool.with_epoch(emptied(a.cache).epoch),
            ..a
        }),
        Settle::CycleBoundary => {
            &&& b == (App {
                pb: next_cycle(a.pb, b.pb.order),
                cache: Cache { vram: 0, blocked: false, ..a.cache },
                ..a
            }.order_changed())
            &&& rearranged(a.pb.order, b.pb.order)
            &&& exists|shuffled: Seq<Seq<char>>|
                rearranged(a.pb.order, shuffled) && b.pb.order == #[trigger] avoiding(
                    shuffled,
                    a.pb.last_shown,
                )
        },
    }
}

/// The message is gone when its time is over.
pub open spec fn expired(app: App, now: u64) -> App {
    match app.error {
        Some((_, end)) => if now >= end {
            App { error: None, ..app }
        } else {
            app
        },
        None => app,
    }
}

/// The textures that the last frame has finished with are gone.
pub open spec fn frame_begun(app: App) -> App {
    App { cache: Cache { pending_free: Seq::empty(), ..app.cache }, ..app }
}

/// Pictures that belong on display are still to come.
pub open spec fn loads(app: App, display_count: usize) -> bool {
    app.cache.window.len() < display_count && app.pb.order.len() > 0
        && app.settings.folder is Some
}

/// It is time for a look at the folder.
pub open spec fn rescan_is_due(app: App, now: u64) -> bool {
    app.runs() && elapsed(app.last_rescan, now) >= app.rescan_interval
}

/// It is time to save the state.
pub open spec fn save_is_due(app: App, now: u64) -> bool {
    app.dirty && app.settings.folder is Some && elapsed(app.last_saved, now) >= SAVE_THROTTLE_SECS
        * NANOS_PER_SEC
}

/// How long nothing happens by itself: a second at most, and no longer than to
/// the next advance or to the next look at the folder.
pub open spec fn wait_time(app: App, now: u64) -> u64 {
    let second = NANOS_PER_SEC;
    let advance = if app.playing && !app.freeze_active && app.pb.order.len() > 0 {
        time_left(app.interval(), elapsed(app.last_advance, now))
    } else {
        second
    };
    let look = if app.settings.folder is Some {
        time_left(app.rescan_interval, elapsed(app.last_rescan, now))
    } else {
        second
    };
    let first = if advance < second {
        advance
    } else {
        second
    };
    if look < first {
        look
    } else {
        first
    }
}

impl ShufflePicApp {
    /// Begins a frame: lets go of the textures that the last one has finished
    /// with, and says whether a look at the folder is due.
    pub fn begin_frame(&mut self, now: u64) -> (rescan_due: bool)
        ensures
            final(self)@ == frame_begun(old(self)@),
            rescan_due == rescan_is_due(old(self)@, now),
    {
        self.cache.pending_free.clear();
        assert(self@ =~= (App {
            cache: Cache { pending_free: Seq::empty(), ..old(self)@.cache },
            ..old(self)@
        }));
        self.is_running() && time_since(self.scanner.last_rescan, now) >= self.scanner.interval
    }

    /// Whether the slideshow goes on with a folder.
    pub fn is_running(&self) -> (runs: bool)
        ensures
            runs == self@.runs(),
    {
        !self.halted && self.settings.folder.is_some()
    }

    /// A look at the folder.
    pub fn run_rescan(
        &mut self,
        files: &Vec<ScannedFile>,
        pending_stats: &Vec<Option<FileStat>>,
        now: u64,
    )
        requires
            pending_stats.len() == old(self)@.pb.pending.len(),
            old(self)@.pb.cursor + old(self)@.cache.window.len() <= usize::MAX,
        ensures
            rescans_to(old(self)@, scan_view(files@), pending_stats@, now, final(self)@),
            old(self)@.cache.covers() ==> final(self)@.cache.covers(),
    {
        let ghost start = self@;
        let changed = rescan(
            &mut self.playback,
            &mut self.cache,
            files,
            pending_stats,
            self.settings.display_count,
        );
        self.scanner.last_rescan = now;
        let ghost next = App { pb: self@.pb, cache: self@.cache, last_rescan: now, ..start };
        assert(self@ =~= next);
        if changed {
            self.cache.bump_epoch(&mut self.decoder);
            self.state_dirty = true;
            assert(self@ =~= next.order_changed());
        }
    }

    /// Whether the machine's integers hold what a refill with these results
    /// adds up.
    pub fn can_take(&self, display_count: usize, arrivals: &Vec<Arrival>) -> (fits: bool)
        ensures
            fits == refill_fits(
                self@.pb,
                self@.cache,
                arrived(arrivals@),
                display_count as int,
            ),
    {
        can_refill(&self.playback, &self.cache, display_count, arrivals)
    }

    /// Fills the window, where `display_count` is the number of pictures on
    /// display that the frame began with. The oversized pictures are added to
    /// `oversized_out`; what to ask for next is returned.
    pub fn refill(
        &mut self,
        display_count: usize,
        arrivals: Vec<Arrival>,
        oversized_out: &mut Vec<String>,
    ) -> (wanted: Vec<Wanted>)
        requires
            old(self)@.cache.covers(),
            refill_fits(
                old(self)@.pb,
                old(self)@.cache,
                arrived(arrivals@),
                display_count as int,
            ),
        ensures
            ({
                let f = collected_in(old(self)@, names(old(oversized_out)@), arrivals@);
                &&& final(self)@ == refilled_app(old(self)@, f, display_count as int)
                &&& names(final(oversized_out)@) == f.oversized
            }),
            final(self)@.cache.covers(),
            drawn_at_size(final(self).cache.window@, old(self).cache.window.len() as int),
            wants(wanted@) == wanted_from(
                final(self)@.pb,
                final(self)@.cache,
                display_count as int,
                final(self)@.cache.window.len() as int,
            ),
    {
        let ghost start = self@;
        let ghost f = collected_in(start, names(oversized_out@), arrivals@);
        let (changed, wanted) = refill_window(
            &mut self.playback,
            &mut self.cache,
            &mut self.decoder,
            display_count,
            arrivals,
            oversized_out,
        );
        if changed {
            self.state_dirty = true;
        }
        assert(self@ =~= refilled_app(start, f, display_count as int));
        wanted
    }

    /// Asks for pictures. Which requests are taken is up to the queues.
    pub fn request(&mut self, wanted: Vec<Wanted>)
        ensures
            exists|taken: Seq<bool>|
                {
                    let s = #[trigger] asked_all(
                        Asking {
                            cache: old(self)@.cache,
                            pool: old(self)@.pool,
                            stopped: false,
                        },
                        wants(wanted@),
                        taken,
                        wanted.len() as int,
                    );
                    final(self)@ == (App { cache: s.cache, pool: s.pool, ..old(self)@ })
                },
            old(self)@.cache.covers() ==> final(self)@.cache.covers(),
    {
        let ghost start = self@;
        let ghost all = wants(wanted@);
        let ghost count = wanted.len() as int;
        issue_requests(&mut self.cache, &mut self.decoder, wanted);
        proof {
            let s = Asking { cache: start.cache, pool: start.pool, stopped: false };
            let taken = choose|taken: Seq<bool>|
                {
                    let end = #[trigger] asked_all(s, all, taken, count);
                    &&& self.cache@ == end.cache
                    &&& self.decoder@ == end.pool
                };
            let end = asked_all(s, all, taken, count);
            assert(self@ =~= (App { cache: end.cache, pool: end.pool, ..start }));
        }
    }

    /// Whether a message waits to be acknowledged.
    pub fn is_blocked(&self) -> (blocked: bool)
        ensures
            blocked == self@.waits(),
    {
        self.oversized_blocked_msg.is_some()
    }

    /// Whether the keys work: neither a menu nor the panel is open, and no
    /// message waits.
    pub fn accepts_keys(&self) -> (accepts: bool)
        ensures
            accepts == (!self@.menu_open && !self@.settings.show_panel && !self@.waits()),
    {
        !self.menu_open && !self.settings.show_panel && !self.is_blocked()
    }

    /// Which inputs are taken in this frame: while a message waits, none but its
    /// acknowledgement; while a menu is open, neither the play button nor a
    /// double click; the keys only while the panel is closed as well.
    pub fn inputs(&self) -> (inputs: Inputs)
        ensures
            inputs == inputs_of(self@),
    {
        let blocked = self.is_blocked();
        Inputs {
            keys: self.accepts_keys(),
            play_button: !self.menu_open && !blocked,
            double_click: !self.menu_open,
            panel: !blocked,
            actions: !blocked,
        }
    }

    /// Takes over what the user did in the settings panel, and says which
    /// folder was picked. While a message waits, the panel does nothing.
    pub fn use_panel(&mut self, input: PanelInput) -> (folder: Option<String>)
        ensures
            final(self)@ == panel_used(old(self)@, input),
            name_of(folder) == panel_pick(old(self)@, input),
            old(self)@.settings.wf() ==> final(self)@.settings.wf(),
    {
        if self.is_blocked() {
            return None;
        }
        let panel = apply_panel(&mut self.settings, input);
        if panel.changed {
            self.state_dirty = true;
        }
        panel.folder_chosen
    }

    /// Opens or closes the settings panel, unless a message waits.
    pub fn toggle_panel(&mut self)
        ensures
            final(self)@ == panel_toggled(old(self)@),
    {
        if !self.is_blocked() {
            self.settings.show_panel = !self.settings.show_panel;
        }
    }

    /// Takes the waiting message away.
    pub fn acknowledge(&mut self)
        ensures
            final(self)@ == (App { blocked_msg: None, ..old(self)@ }),
    {
        self.oversized_blocked_msg = None;
        assert(self@ =~= (App { blocked_msg: None, ..old(self)@ }));
    }

    /// What the top bar counts.
    pub fn counts(&self) -> (counts: Counts)
        ensures
            counts.shown == if self@.pb.cursor < self@.pb.order.len() {
                self@.pb.cursor
            } else {
                self@.pb.order.len() as int
            },
            counts.shown + counts.remaining == self@.pb.order.len(),
            counts.cached == self@.cache.window.len(),
            counts.cycle == self@.pb.cycle,
    {
        let total = self.playback.play_order.len();
        let shown: usize = if self.playback.cursor < total {
            self.playback.cursor
        } else {
            total
        };
        Counts {
            shown,
            remaining: total - shown,
            cached: self.cache.window.len(),
            cycle: self.playback.cycle_count,
        }
    }

    /// How many pictures are drawn, where `display_count` is the number that
    /// the frame began with.
    pub fn drawn(&self, display_count: usize) -> (drawn: usize)
        ensures
            drawn == drawn_count(self@, display_count),
    {
        if self.cache.window.len() < display_count {
            self.cache.window.len()
        } else {
            display_count
        }
    }

    /// What is shown instead of pictures, where none are drawn.
    pub fn notice(&self, display_count: usize) -> (notice: Option<Notice>)
        ensures
            notice == notice_of(self@, display_count),
    {
        if self.drawn(display_count) > 0 {
            None
        } else if self.settings.folder.is_none() {
            Some(Notice::ChooseFolder)
        } else if self.playback.play_order.len() == 0 {
            Some(Notice::NoPictures)
        } else {
            Some(Notice::Loading)
        }
    }

    /// The menu is asked for on the `i`th picture.
    pub fn open_menu_on(&mut self, i: usize)
        requires
            i < old(self)@.cache.window.len(),
        ensures
            final(self)@ == (App {
                menu_target: Some(old(self)@.cache.window[i as int].path),
                ..old(self)@
            }),
    {
        self.menu_target = Some(self.cache.window[i].path.clone());
        assert(self@ =~= (App {
            menu_target: Some(old(self)@.cache.window[i as int].path),
            ..old(self)@
        }));
    }

    /// The picture that a deletion from the menu of the `i`th picture is for:
    /// the one that the menu was opened on, whatever is on display since.
    pub fn delete_target(&self, i: usize) -> (target: String)
        requires
            i < self@.cache.window.len(),
        ensures
            target@ == target_of(self@, i as int),
    {
        match &self.menu_target {
            Some(path) => path.clone(),
            None => self.cache.window[i].path.clone(),
        }
    }

    /// Notes whether a menu is open, and forgets what it is for when it is
    /// closed and nothing is to be deleted.
    pub fn note_menu(&mut self, open: bool, deleting: bool)
        ensures
            final(self)@ == menu_noted(old(self)@, open, deleting),
    {
        if !open && !deleting {
            self.menu_target = None;
        }
        self.menu_open = open;
    }

    /// Forgets what the menu is for.
    pub fn forget_menu_target(&mut self)
        ensures
            final(self)@ == (App { menu_target: None, ..old(self)@ }),
    {
        self.menu_target = None;
        assert(self@ =~= (App { menu_target: None, ..old(self)@ }));
    }

    /// Freezes the advance while a menu or the panel is open or a message is
    /// `blocked` on, and lets it go on afterwards. Says whether the advance is
    /// put off for this frame.
    pub fn switch_freeze(&mut self, blocked: bool, now: u64) -> (suppressed: bool)
        requires
            old(self)@.settings.wf(),
        ensures
            ({
                let frozen = is_frozen(old(self)@, blocked);
                &&& final(self)@ == freeze_switched(old(self)@, frozen, now)
                &&& final(self)@.freeze_active == frozen
                &&& suppressed == (old(self)@.freeze_active != frozen)
            }),
    {
        let frozen = self.menu_open || self.settings.show_panel || blocked;
        let interval = self.interval();
        let mut suppressed = false;
        if !self.advance_freeze_active && frozen {
            let remaining = left_of(interval, time_since(self.last_advance, now));
            self.advance_frozen_remaining = Some(remaining);
            suppressed = true;
        } else if self.advance_freeze_active && !frozen {
            let left: u64 = match self.advance_frozen_remaining.take() {
                Some(left) => if left < interval {
                    left
                } else {
                    interval
                },
                None => interval,
            };
            let passed = left_of(interval, left);
            self.last_advance = if now < passed {
                now
            } else {
                now - passed
            };
            suppressed = true;
        }
        self.advance_freeze_active = frozen;
        assert(self@ =~= freeze_switched(old(self)@, frozen, now));
        suppressed
    }

    /// Changes to the full screen or back.
    pub fn toggle_fullscreen(&mut self)
        ensures
            final(self)@ == (App { fullscreen: !old(self)@.fullscreen, ..old(self)@ }),
    {
        self.fullscreen = !self.fullscreen;
    }

    /// Switches play on or off. Switched on, a full interval begins.
    pub fn toggle_play(&mut self, now: u64)
        ensures
            final(self)@ == play_toggled(old(self)@, now),
    {
        self.playing = !self.playing;
        if self.playing {
            self.last_advance = now;
            self.advance_frozen_remaining = None;
        }
    }

    /// Does what the user wished for, unless they were `blocked` by a message.
    /// Says whether anything was done.
    pub fn apply_wishes(&mut self, fullscreen: bool, play: bool, blocked: bool, now: u64) -> (acted:
        bool)
        ensures
            acted == (!blocked && (fullscreen || play)),
            final(self)@ == wished(old(self)@, fullscreen, play, blocked, now),
    {
        if blocked {
            return false;
        }
        if fullscreen {
            self.toggle_fullscreen();
        }
        if play {
            self.toggle_play(now);
        }
        fullscreen || play
    }

    /// Takes over what the user did, where `blocked` says whether a message
    /// waited when the frame was drawn. Says whether the advance is put off for
    /// this frame, and whether anything was done.
    pub fn take_gestures(&mut self, g: Gestures, blocked: bool, now: u64) -> (taken: (bool, bool))
        requires
            old(self)@.settings.wf(),
        ensures
            final(self)@ == gestures_taken(old(self)@, g, blocked, now),
            taken.0 == (old(self)@.freeze_active != final(self)@.freeze_active),
            taken.1 == (!blocked && (g.fullscreen || g.play)),
    {
        self.note_menu(g.menu_open, g.delete);
        let suppressed = self.switch_freeze(blocked, now);
        let acted = self.apply_wishes(g.fullscreen, g.play, blocked, now);
        (suppressed, acted)
    }

    /// Goes on to the next pictures if it is time. Says whether it was.
    pub fn advance_if_due(&mut self, suppressed: bool, now: u64) -> (due: bool)
        requires
            old(self)@.settings.wf(),
            old(self)@.pb.cursor + old(self)@.shown() <= usize::MAX,
        ensures
            due == advance_due(old(self)@, suppressed, now),
            final(self)@ == advanced_if_due(old(self)@, suppressed, now),
            old(self)@.cache.covers() ==> final(self)@.cache.covers(),
    {
        if self.playing && !self.halted && !self.advance_freeze_active && !suppressed
            && self.playback.play_order.len() > 0 && time_since(self.last_advance, now)
            >= self.interval() {
            self.advance();
            self.last_advance = now;
            self.state_dirty = true;
            true
        } else {
            false
        }
    }

    /// The end of a frame: begins a new cycle when every picture has been
    /// shown, and empties the display when no picture is left. Says whether
    /// anything was done.
    pub fn settle(&mut self) -> (settle: Settle)
        ensures
            settle == settled_as(old(self)@),
            settles_to(old(self)@, final(self)@),
    {
        let ghost start = self@;
        if self.halted {
            return Settle::Unchanged;
        }
        let settle = settle_cycle_or_empty(
            &mut self.playback,
            &mut self.cache,
            &mut self.decoder,
        );
        match settle {
            Settle::Unchanged => {},
            Settle::CycleBoundary => {
                self.state_dirty = true;
                assert(self@ =~= (App {
                    pb: next_cycle(start.pb, self@.pb.order),
                    cache: Cache { vram: 0, blocked: false, ..start.cache },
                    ..start
                }.order_changed()));
            },
            Settle::Empty => {},
        }
        settle
    }

    /// Takes the message away when its time is over.
    pub fn expire_error(&mut self, now: u64)
        ensures
            final(self)@ == expired(old(self)@, now),
    {
        let over = match &self.error {
            Some((_, end)) => now >= *end,
            None => false,
        };
        if over {
            self.error = None;
            assert(self@ =~= (App { error: None, ..old(self)@ }));
        }
    }

    /// Whether it is time to save the state.
    pub fn save_due(&self, now: u64) -> (due: bool)
        ensures
            due == save_is_due(self@, now),
    {
        self.state_dirty && self.settings.folder.is_some() && time_since(self.last_saved, now)
            >= SAVE_THROTTLE_SECS * NANOS_PER_SEC
    }

    /// The end of a frame: the cycle is settled, and a message whose time is over
    /// is taken away. Says whether the cycle or the display was changed, and
    /// whether it is time to save the state.
    pub fn end_frame(&mut self, now: u64) -> (end: (bool, bool))
        ensures
            exists|settled: App|
                #[trigger] settles_to(old(self)@, settled) && final(self)@ == expired(
                    settled,
                    now,
                ),
            end.0 == !(settled_as(old(self)@) is Unchanged),
            end.1 == save_is_due(final(self)@, now),
    {
        let ghost start = self@;
        let settle = self.settle();
        let ghost settled = self@;
        self.expire_error(now);
        assert(settles_to(start, settled));
        let changed = match settle {
            Settle::Unchanged => false,
            _ => true,
        };
        (changed, self.save_due(now))
    }

    /// How long nothing happens by itself.
    pub fn wait(&self, now: u64) -> (nanos: u64)
        requires
            self@.settings.wf(),
        ensures
            nanos == wait_time(self@, now),
    {
        let mut wait: u64 = NANOS_PER_SEC;
        if self.playing && !self.advance_freeze_active && self.playback.play_order.len() > 0 {
            let left = left_of(self.interval(), time_since(self.last_advance, now));
            if left < wait {
                wait = left;
            }
        }
        if self.settings.folder.is_some() {
            let left = left_of(self.scanner.interval, time_since(self.scanner.last_rescan, now));
            if left < wait {
                wait = left;
            }
        }
        wait
    }

    /// Whether pictures that belong on display are still to come.
    pub fn is_loading(&self, display_count: usize) -> (loading: bool)
        ensures
            loading == loads(self@, display_count),
    {
        self.cache.window.len() < display_count && self.playback.play_order.len() > 0
            && self.settings.folder.is_some()
    }
}

/// While the advance is frozen, the time to the next picture stands still: when
/// it is let go, as much is left as when it was frozen. In between, nothing
/// advances.
pub proof fn law_freeze_keeps_time(app: App, frozen_at: u64, freed_at: u64)
    requires
        app.settings.wf(),
        !app.freeze_active,
        frozen_at <= freed_at,
    ensures
        ({
            let frozen = freeze_switched(app, true, frozen_at);
            let free = freeze_switched(frozen, false, freed_at);
            &&& time_left(free.interval(), elapsed(free.last_advance, freed_at)) == time_left(
                app.interval(),
                elapsed(app.last_advance, frozen_at),
            )
            &&& forall|suppressed: bool, now: u64| !advance_due(frozen, suppressed, now)
            &&& free.pb == app.pb && free.cache == app.cache
        }),
{
}

/// Switching play on begins a full interval, whether or not the advance is
/// frozen and however much was left.
pub proof fn law_play_begins_full_interval(app: App, now: u64, freed_at: u64)
    requires
        app.settings.wf(),
        !app.playing,
        now <= freed_at,
    ensures
        ({
            let playing = play_toggled(app, now);
            let free = freeze_switched(playing, false, freed_at);
            &&& time_left(playing.interval(), elapsed(playing.last_advance, now))
                == playing.interval()
            &&& app.freeze_active ==> time_left(
                free.interval(),
                elapsed(free.last_advance, freed_at),
            ) == free.interval()
        }),
{
}

/// Switching play off and on again changes nothing but the time.
pub proof fn law_play_toggles_back(app: App, off: u64, on: u64)
    requires
        app.playing,
    ensures
        play_toggled(play_toggled(app, off), on) == (App {
            last_advance: on,
            frozen_remaining: None,
            ..app
        }),
{
}

/// A halted slideshow does not go on by itself: nothing advances, no cycle
/// begins, and the folder is not looked at.
pub proof fn law_halted_stands_still(app: App, suppressed: bool, now: u64)
    requires
        app.halted,
    ensures
        !advance_due(app, suppressed, now),
        !app.runs(),
        settled_as(app) == Settle::Unchanged,
{
}

/// The display is emptied once: the next frame finds nothing to do.
pub proof fn law_display_is_emptied_once(a: App, b: App)
    requires
        settled_as(a) is Empty,
        settles_to(a, b),
    ensures
        settled_as(b) is Unchanged,
{
}

/// A new cycle does not open with a picture that closed the last one, where there
/// is another; its second picture is not one of those either, where there are
/// two more than those.
pub proof fn law_settled_cycle_opens_fresh(a: App, b: App)
    requires
        settles_to(a, b),
        settled_as(a) is CycleBoundary,
        a.pb.order.no_duplicates(),
    ensures
        (exists|k: int|
            0 <= k < a.pb.order.len() && !a.pb.last_shown.contains(#[trigger] a.pb.order[k]))
            ==> !a.pb.last_shown.contains(b.pb.order[0]),
        a.pb.last_shown.len() == 2 && a.pb.order.len() >= 4 ==> !a.pb.last_shown.contains(
            b.pb.order[1],
        ),
{
    let shuffled = choose|shuffled: Seq<Seq<char>>|
        rearranged(a.pb.order, shuffled) && b.pb.order == #[trigger] avoiding(
            shuffled,
            a.pb.last_shown,
        );
    law_shuffled_cycle_opens_fresh(a.pb.order, shuffled, a.pb.last_shown);
}

/// A new cycle is begun once, and only when the cursor has come to the end of
/// the order.
pub proof fn law_cycle_begins_once(a: App, b: App)
    requires
        settled_as(a) is CycleBoundary,
        settles_to(a, b),
    ensures
        a.pb.cursor >= a.pb.order.len(),
        b.pb.cycle == a.pb.cycle.wrapping_add(1),
        settled_as(b) is Unchanged,
{
    lemma_rearranged(a.pb.order, b.pb.order);
}

} // verus!
