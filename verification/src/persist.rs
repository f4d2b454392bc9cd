//! What is kept from one run to the next.

use crate::paths::{
    lemma_filter_members, lemma_filter_next, lemma_names_push, lemma_push_members,
    lemma_rearranged, lemma_take_next, names, path_set, rearranged,
};
use crate::playback::{restored, shuffle_paths, Playback, PlaybackState};
use crate::settings::{clamped_count, clamped_interval, name_of, Settings, SettingsState};
use crate::{DEFAULT_DISPLAY_COUNT, DEFAULT_INTERVAL_SECS, PERSIST_SCHEMA_VERSION};
use vstd::hash_set::StringHashSet;
use vstd::prelude::*;
use vstd::seq_lib::lemma_no_dup_in_concat;

verus! {

/// The settings and the place in the cycle, as they are written to disk.
pub struct PersistState {
    pub schema_version: u32,
    pub folder: String,
    pub interval_secs: u64,
    pub display_count: usize,
    pub play_order: Vec<String>,
    pub cursor: usize,
    pub cycle_count: u32,
    pub last_shown: Vec<String>,
}

/// What a [`PersistState`] holds.
#[verifier::ext_equal]
pub struct Saved {
    pub schema_version: u32,
    pub folder: Seq<char>,
    pub interval_secs: u64,
    pub display_count: usize,
    pub order: Seq<Seq<char>>,
    pub cursor: int,
    pub cycle: u32,
    pub last_shown: Seq<Seq<char>>,
}

impl View for PersistState {
    type V = Saved;

    open spec fn view(&self) -> Saved {
        Saved {
            schema_version: self.schema_version,
            folder: self.folder@,
            interval_secs: self.interval_secs,
            display_count: self.display_count,
            order: names(self.play_order@),
            cursor: self.cursor as int,
            cycle: self.cycle_count,
            last_shown: names(self.last_shown@),
        }
    }
}

/// Of the first `n` paths of a saved order, those that are among the `found`,
/// each once.
pub open spec fn surviving(order: Seq<Seq<char>>, found: Set<Seq<char>>, n: int) -> Seq<Seq<char>>
    decreases n,
{
    if n <= 0 {
        Seq::empty()
    } else {
        let before = surviving(order, found, n - 1);
        let path = order[n - 1];
        if found.contains(path) && !order.take(n - 1).contains(path) {
            before.push(path)
        } else {
            before
        }
    }
}

/// How many pictures of a saved order have been shown.
pub open spec fn shown_count(state: Saved) -> int {
    if state.cursor < state.order.len() {
        state.cursor
    } else {
        state.order.len() as int
    }
}

/// The scanned paths that are not in a saved order.
pub open spec fn unknown(order: Seq<Seq<char>>, scanned: Seq<Seq<char>>) -> Seq<Seq<char>> {
    scanned.filter(|p: Seq<char>| !order.contains(p))
}

/// The first two paths that are among the `found`.
pub open spec fn remembered(last_shown: Seq<Seq<char>>, found: Set<Seq<char>>) -> Seq<Seq<char>> {
    let kept = last_shown.filter(|p: Seq<char>| found.contains(p));
    if kept.len() <= 2 {
        kept
    } else {
        kept.take(2)
    }
}

/// Collects the paths from `from` up to `to` that are among the `found` and
/// were not seen.
fn survivors(
    order: &Vec<String>,
    found: &StringHashSet,
    seen: &mut StringHashSet,
    from: usize,
    to: usize,
) -> (kept: Vec<String>)
    requires
        from <= to <= order.len(),
        old(seen)@ == names(order@).take(from as int).to_set().intersect(found@),
    ensures
        final(seen)@ == names(order@).take(to as int).to_set().intersect(found@),
        surviving(names(order@), found@, from as int) + names(kept@) == surviving(
            names(order@),
            found@,
            to as int,
        ),
{
    let ghost paths = names(order@);
    let ghost start = surviving(paths, found@, from as int);
    let mut kept: Vec<String> = Vec::new();
    let mut i = from;
    assert(names(kept@) =~= Seq::empty());
    while i < to
        invariant
            from <= i <= to <= order.len(),
            paths == names(order@),
            start == surviving(paths, found@, from as int),
            seen@ == paths.take(i as int).to_set().intersect(found@),
            start + names(kept@) =~= surviving(paths, found@, i as int),
        decreases to - i,
    {
        let path = &order[i];
        let ghost before = seen@;
        proof {
            assert(paths[i as int] == path@);
            lemma_take_next(paths, i as int);
        }
        if found.contains(path.as_str()) && seen.insert(path.clone()) {
            proof {
                lemma_names_push(kept@, *path);
            }
            kept.push(path.clone());
        }
        proof {
            assert(before.contains(path@) == (found@.contains(path@) && paths.take(
                i as int,
            ).contains(path@)));
            assert(seen@ =~= paths.take(i + 1).to_set().intersect(found@));
        }
        i = i + 1;
    }
    kept
}

/// The paths of `paths` that are in `set`, where `inside`, or that are not.
fn select(paths: &Vec<String>, set: &StringHashSet, inside: bool) -> (kept: Vec<String>)
    ensures
        names(kept@) == names(paths@).filter(|p: Seq<char>| set@.contains(p) == inside),
{
    let ghost all = names(paths@);
    let ghost keep = |p: Seq<char>| set@.contains(p) == inside;
    let mut kept: Vec<String> = Vec::new();
    let mut i: usize = 0;
    assert(all.take(0).filter(keep) =~= Seq::empty()) by {
        reveal(Seq::filter);
    }
    while i < paths.len()
        invariant
            i <= paths.len(),
            all == names(paths@),
            keep == (|p: Seq<char>| set@.contains(p) == inside),
            names(kept@) =~= all.take(i as int).filter(keep),
        decreases paths.len() - i,
    {
        proof {
            assert(all[i as int] == paths@[i as int]@);
            lemma_filter_next(all, keep, i as int);
        }
        if set.contains(paths[i].as_str()) == inside {
            proof {
                lemma_names_push(kept@, paths@[i as int]);
            }
            kept.push(paths[i].clone());
        }
        i = i + 1;
    }
    assert(all.take(i as int) =~= all);
    kept
}

/// A play order, a cursor and the pictures last shown bring a saved state
/// together with what is in the folder.
pub open spec fn reconciled(
    state: Saved,
    scanned: Seq<Seq<char>>,
    order: Seq<Seq<char>>,
    cursor: int,
    last_shown: Seq<Seq<char>>,
) -> bool {
    let found = scanned.to_set();
    let kept = surviving(state.order, found, state.order.len() as int);
    &&& order.len() >= kept.len()
    &&& order.take(kept.len() as int) == kept
    &&& rearranged(unknown(state.order, scanned), order.skip(kept.len() as int))
    &&& cursor == surviving(state.order, found, shown_count(state)).len()
    &&& last_shown == remembered(state.last_shown, found)
}

/// Brings a saved state together with what is in the folder now: the play
/// order, the cursor and the pictures last shown. Pictures that are gone or
/// occur twice are left out; new ones go to the end, shuffled.
pub fn reconcile(state: &PersistState, scanned: &Vec<String>) -> (restored: (
    Vec<String>,
    usize,
    Vec<String>,
))
    ensures
        reconciled(
            state@,
            names(scanned@),
            names(restored.0@),
            restored.1 as int,
            names(restored.2@),
        ),
{
    let ghost order = state@.order;
    let ghost scan = names(scanned@);
    let found = path_set(scanned);
    let safe: usize = if state.cursor < state.play_order.len() {
        state.cursor
    } else {
        state.play_order.len()
    };
    let mut seen = StringHashSet::new();
    assert(seen@ =~= order.take(0).to_set().intersect(found@));
    let mut play_order = survivors(&state.play_order, &found, &mut seen, 0, safe);
    let cursor = play_order.len();
    let mut unshown = survivors(&state.play_order, &found, &mut seen, safe, state.play_order.len());
    let ghost kept = surviving(order, found@, order.len() as int);
    let mut new_paths = select(scanned, &seen, false);
    proof {
        assert(order.take(order.len() as int) =~= order);
        lemma_filter_agree(
            scan,
            |p: Seq<char>| seen@.contains(p) == false,
            |p: Seq<char>| !order.contains(p),
        );
        assert(surviving(order, found@, 0) =~= Seq::empty());
        assert(names(play_order@) + names(unshown@) =~= kept);
    }
    shuffle_paths(&mut new_paths);
    let ghost first = play_order@;
    let ghost second = unshown@;
    let ghost third = new_paths@;
    play_order.append(&mut unshown);
    play_order.append(&mut new_paths);
    proof {
        assert(names(play_order@) =~= names(first) + names(second) + names(third));
        assert(names(play_order@).take(kept.len() as int) =~= kept);
        assert(names(play_order@).skip(kept.len() as int) =~= names(third));
    }
    let mut last_shown = select(&state.last_shown, &found, true);
    proof {
        lemma_filter_agree(
            state@.last_shown,
            |p: Seq<char>| found@.contains(p) == true,
            |p: Seq<char>| found@.contains(p),
        );
    }
    let ghost held = last_shown@;
    last_shown.truncate(2);
    proof {
        if held.len() > 2 {
            assert(names(last_shown@) =~= names(held).take(2));
        }
        assert(names(first) =~= surviving(order, found@, shown_count(state@)));
        assert(names(last_shown@) =~= remembered(state@.last_shown, found@));
    }
    (play_order, cursor, last_shown)
}

/// Two conditions that agree on a list pick the same items.
proof fn lemma_filter_agree(
    s: Seq<Seq<char>>,
    f: spec_fn(Seq<char>) -> bool,
    g: spec_fn(Seq<char>) -> bool,
)
    requires
        forall|i: int| 0 <= i < s.len() ==> f(#[trigger] s[i]) == g(s[i]),
    ensures
        s.filter(f) == s.filter(g),
    decreases s.len(),
{
    reveal(Seq::filter);
    if s.len() > 0 {
        lemma_filter_agree(s.drop_last(), f, g);
    }
}

/// A state file that could be read.
pub struct StoredState {
    pub path: String,
    /// Time of last change, in nanoseconds from the Unix epoch.
    pub modified: i128,
    pub state: PersistState,
}

/// The place of the state to go on with among the first `n`: the newest of
/// those with the right version, and the first of these.
pub open spec fn newest(stored: Seq<StoredState>, n: int) -> Option<int>
    decreases n,
{
    if n <= 0 {
        None
    } else {
        let before = newest(stored, n - 1);
        if stored[n - 1].state.schema_version != PERSIST_SCHEMA_VERSION {
            before
        } else {
            match before {
                Some(b) => if stored[b].modified >= stored[n - 1].modified {
                    before
                } else {
                    Some(n - 1)
                },
                None => Some(n - 1),
            }
        }
    }
}

/// Picks the state to go on with, and where it was read from. That place is
/// where the state is written from then on.
pub fn load(stored: Vec<StoredState>) -> (picked: Option<(String, PersistState)>)
    ensures
        match newest(stored@, stored.len() as int) {
            Some(i) => 0 <= i < stored.len() && picked == Some(
                (stored@[i].path, stored@[i].state),
            ),
            None => picked is None,
        },
{
    let mut best: Option<usize> = None;
    let mut i: usize = 0;
    while i < stored.len()
        invariant
            i <= stored.len(),
            match best {
                Some(b) => b < i && newest(stored@, i as int) == Some(b as int),
                None => newest(stored@, i as int) is None,
            },
        decreases stored.len() - i,
    {
        if stored[i].state.schema_version == PERSIST_SCHEMA_VERSION {
            let newer = match best {
                Some(b) => stored[b].modified < stored[i].modified,
                None => true,
            };
            if newer {
                best = Some(i);
            }
        }
        i = i + 1;
    }
    match best {
        Some(b) => {
            let mut stored = stored;
            let StoredState { path, modified, state } = stored.swap_remove(b);
            Some((path, state))
        },
        None => None,
    }
}

/// The state that is picked has the right version, and none with that version
/// is newer; none is picked only where none has it.
pub proof fn law_newest_state_is_picked(stored: Seq<StoredState>, n: int)
    requires
        0 <= n <= stored.len(),
    ensures
        match newest(stored, n) {
            Some(b) => {
                &&& 0 <= b < n
                &&& stored[b].state.schema_version == PERSIST_SCHEMA_VERSION
                &&& forall|i: int|
                    0 <= i < n && stored[i].state.schema_version == PERSIST_SCHEMA_VERSION ==> (
                    #[trigger] stored[i]).modified <= stored[b].modified
                &&& forall|i: int|
                    0 <= i < b && stored[i].state.schema_version == PERSIST_SCHEMA_VERSION ==> (
                    #[trigger] stored[i]).modified < stored[b].modified
            },
            None => forall|i: int|
                0 <= i < n ==> (#[trigger] stored[i]).state.schema_version
                    != PERSIST_SCHEMA_VERSION,
        },
    decreases n,
{
    if n > 0 {
        law_newest_state_is_picked(stored, n - 1);
    }
}

/// A saved order without repeats, all of whose pictures are there, survives as
/// it is.
proof fn lemma_all_survive(order: Seq<Seq<char>>, found: Set<Seq<char>>, n: int)
    requires
        0 <= n <= order.len(),
        order.no_duplicates(),
        forall|i: int| 0 <= i < order.len() ==> found.contains(#[trigger] order[i]),
    ensures
        surviving(order, found, n) == order.take(n),
    decreases n,
{
    if n > 0 {
        lemma_all_survive(order, found, n - 1);
        lemma_take_next(order, n - 1);
        let path = order[n - 1];
        assert(found.contains(path));
        let head = order.take(n - 1);
        if head.contains(path) {
            let k = choose|k: int| 0 <= k < head.len() && head[k] == path;
            assert(order[k] == order[n - 1]);
        }
        assert(surviving(order, found, n) =~= order.take(n));
    } else {
        assert(order.take(n) =~= Seq::empty());
    }
}

/// A run goes on where the last one stopped: where the folder holds the
/// pictures of the saved order and no others, the order and the cursor come
/// back as they were saved, and so do the pictures last shown, where they are
/// in the order and two at most.
pub proof fn law_unchanged_folder_resumes(
    state: Saved,
    scanned: Seq<Seq<char>>,
    order: Seq<Seq<char>>,
    cursor: int,
    last_shown: Seq<Seq<char>>,
)
    requires
        reconciled(state, scanned, order, cursor, last_shown),
        state.order.no_duplicates(),
        0 <= state.cursor <= state.order.len(),
        forall|p: Seq<char>| #[trigger] scanned.contains(p) <==> state.order.contains(p),
    ensures
        order == state.order,
        cursor == state.cursor,
        state.last_shown.len() <= 2 && (forall|i: int|
            0 <= i < state.last_shown.len() ==> state.order.contains(
                #[trigger] state.last_shown[i],
            )) ==> last_shown == state.last_shown,
{
    let found = scanned.to_set();
    let n = state.order.len() as int;
    assert forall|i: int| 0 <= i < n implies found.contains(#[trigger] state.order[i]) by {
        assert(state.order.contains(state.order[i]));
        assert(scanned.contains(state.order[i]));
    }
    lemma_all_survive(state.order, found, n);
    lemma_all_survive(state.order, found, shown_count(state));
    assert(state.order.take(n) =~= state.order);
    let new = |p: Seq<char>| !state.order.contains(p);
    let fresh = unknown(state.order, scanned);
    lemma_filter_members(scanned, new);
    if fresh.len() > 0 {
        assert(fresh.contains(fresh[0]));
    }
    lemma_rearranged(fresh, order.skip(n));
    assert(order =~= order.take(n) + order.skip(n));
    assert(order =~= state.order);
    if state.last_shown.len() <= 2 && (forall|i: int|
        0 <= i < state.last_shown.len() ==> state.order.contains(
            #[trigger] state.last_shown[i],
        )) {
        assert forall|i: int| 0 <= i < state.last_shown.len() implies found.contains(
            #[trigger] state.last_shown[i],
        ) by {
            assert(scanned.contains(state.last_shown[i]));
        }
        lemma_filter_keeps(state.last_shown, |p: Seq<char>| found.contains(p));
    }
}

/// A filter that all items pass takes nothing out.
proof fn lemma_filter_keeps(s: Seq<Seq<char>>, keep: spec_fn(Seq<char>) -> bool)
    requires
        forall|i: int| 0 <= i < s.len() ==> keep(#[trigger] s[i]),
    ensures
        s.filter(keep) == s,
    decreases s.len(),
{
    reveal(Seq::filter);
    if s.len() > 0 {
        lemma_filter_keeps(s.drop_last(), keep);
        assert(s =~= s.drop_last().push(s.last()));
    } else {
        assert(s.filter(keep) =~= s);
    }
}

/// The places for the state file, the best first: beside the executable, in the
/// user's folder for application data, in the current folder; those that there
/// are.
pub open spec fn places(
    beside_exe: Option<String>,
    app_data: Option<String>,
    current: Option<String>,
) -> Seq<Seq<char>> {
    one_place(beside_exe) + one_place(app_data) + one_place(current)
}

/// A place, if there is one.
pub open spec fn one_place(place: Option<String>) -> Seq<Seq<char>> {
    match place {
        Some(path) => seq![path@],
        None => Seq::empty(),
    }
}

fn add_place(list: &mut Vec<String>, place: Option<String>)
    ensures
        names(final(list)@) == names(old(list)@) + one_place(place),
{
    let ghost before = names(list@);
    match place {
        Some(path) => {
            proof {
                lemma_names_push(list@, path);
            }
            list.push(path);
            assert(names(list@) =~= before + seq![path@]);
        },
        None => {
            assert(before + Seq::empty() =~= before);
        },
    }
}

/// The places for the state file, the best first.
pub fn candidate_files(
    beside_exe: Option<String>,
    app_data: Option<String>,
    current: Option<String>,
) -> (list: Vec<String>)
    ensures
        names(list@) == places(beside_exe, app_data, current),
{
    let mut list: Vec<String> = Vec::new();
    let ghost exe = one_place(beside_exe);
    assert(names(list@) + exe =~= exe);
    add_place(&mut list, beside_exe);
    add_place(&mut list, app_data);
    add_place(&mut list, current);
    list
}

/// The message for a state that has nowhere to be written.
pub const NO_LOCATION: &'static str = "no writable location for state file";

/// What to do next to save the state, or how that ended.
#[derive(Debug, Clone, Copy, PartialEq, Eq, Structural)]
pub enum SaveAction {
    /// Try to write next to the candidate of that number.
    Probe(usize),
    /// Write the whole state into a temporary file and flush it to disk.
    WriteTemp,
    /// Rename the temporary file to the state file.
    Replace,
    RemoveTemp,
    Saved,
    Failed,
    /// None of the candidates can be written.
    NoLocation,
}

/// The first action, where `chosen` says whether the place of the state file
/// is settled, and there are `candidates` for it.
pub open spec fn first_save(chosen: bool, candidates: int) -> SaveAction {
    if chosen {
        SaveAction::WriteTemp
    } else if candidates > 0 {
        SaveAction::Probe(0)
    } else {
        SaveAction::NoLocation
    }
}

/// The action that follows one that went well or not.
pub open spec fn next_save(action: SaveAction, ok: bool, candidates: int) -> SaveAction {
    match action {
        SaveAction::Probe(i) => if ok && i < candidates {
            SaveAction::WriteTemp
        } else if i + 1 < candidates {
            SaveAction::Probe((i + 1) as usize)
        } else {
            SaveAction::NoLocation
        },
        SaveAction::WriteTemp => if ok {
            SaveAction::Replace
        } else {
            SaveAction::Failed
        },
        SaveAction::Replace => if ok {
            SaveAction::Saved
        } else {
            SaveAction::RemoveTemp
        },
        SaveAction::RemoveTemp => SaveAction::Failed,
        end => end,
    }
}

/// The place of the state file after an action: the candidate that was tried,
/// where it can be written.
pub open spec fn chosen_after(
    chosen: Option<String>,
    candidates: Seq<String>,
    action: SaveAction,
    ok: bool,
) -> Option<String> {
    match action {
        SaveAction::Probe(i) => if ok && i < candidates.len() {
            Some(candidates[i as int])
        } else {
            chosen
        },
        _ => chosen,
    }
}

/// Starts to save the state.
pub fn start_save(chosen: &Option<String>, candidates: &Vec<String>) -> (action: SaveAction)
    ensures
        action == first_save(chosen is Some, candidates.len() as int),
{
    if chosen.is_some() {
        SaveAction::WriteTemp
    } else if candidates.len() > 0 {
        SaveAction::Probe(0)
    } else {
        SaveAction::NoLocation
    }
}

/// Goes on with saving the state: from the last action and whether it went well
/// to the next. The first candidate that can be written becomes the place of
/// the state file.
pub fn save(
    chosen: &mut Option<String>,
    candidates: &Vec<String>,
    action: SaveAction,
    ok: bool,
) -> (next: SaveAction)
    ensures
        next == next_save(action, ok, candidates.len() as int),
        *final(chosen) == chosen_after(*old(chosen), candidates@, action, ok),
{
    match action {
        SaveAction::Probe(i) => {
            if ok && i < candidates.len() {
                *chosen = Some(candidates[i].clone());
                SaveAction::WriteTemp
            } else if i < candidates.len() && i + 1 < candidates.len() {
                SaveAction::Probe(i + 1)
            } else {
                SaveAction::NoLocation
            }
        },
        SaveAction::WriteTemp => {
            if ok {
                SaveAction::Replace
            } else {
                SaveAction::Failed
            }
        },
        SaveAction::Replace => {
            if ok {
                SaveAction::Saved
            } else {
                SaveAction::RemoveTemp
            }
        },
        SaveAction::RemoveTemp => SaveAction::Failed,
        end => end,
    }
}

/// The files that saving works on.
pub struct SaveFiles {
    /// The temporary file holds the whole state.
    pub temp_whole: bool,
    /// The state file holds something else than it held before.
    pub replaced: bool,
    /// The state file holds the whole new state.
    pub replaced_whole: bool,
}

/// What an action does to the files, by whether it went well.
pub open spec fn files_after(f: SaveFiles, action: SaveAction, ok: bool) -> SaveFiles {
    match action {
        SaveAction::WriteTemp => SaveFiles { temp_whole: ok, ..f },
        SaveAction::Replace => if ok {
            SaveFiles { replaced: true, replaced_whole: f.temp_whole, temp_whole: false }
        } else {
            f
        },
        _ => f,
    }
}

/// The action after the first `n` outcomes.
pub open spec fn save_at(chosen: bool, candidates: int, oks: Seq<bool>, n: int) -> SaveAction
    decreases n,
{
    if n <= 0 {
        first_save(chosen, candidates)
    } else {
        next_save(save_at(chosen, candidates, oks, n - 1), oks[n - 1], candidates)
    }
}

/// The files after the first `n` outcomes.
pub open spec fn files_at(chosen: bool, candidates: int, oks: Seq<bool>, n: int) -> SaveFiles
    decreases n,
{
    if n <= 0 {
        SaveFiles { temp_whole: false, replaced: false, replaced_whole: false }
    } else {
        files_after(
            files_at(chosen, candidates, oks, n - 1),
            save_at(chosen, candidates, oks, n - 1),
            oks[n - 1],
        )
    }
}

/// The state file is never half written: it holds what it held, or the whole
/// new state, and the latter exactly when saving has ended well.
pub proof fn law_state_file_is_whole(chosen: bool, candidates: int, oks: Seq<bool>, n: int)
    ensures
        ({
            let f = files_at(chosen, candidates, oks, n);
            let action = save_at(chosen, candidates, oks, n);
            &&& f.replaced ==> f.replaced_whole
            &&& f.replaced <==> action is Saved
            &&& action is Replace ==> f.temp_whole
        }),
    decreases n,
{
    if n > 0 {
        law_state_file_is_whole(chosen, candidates, oks, n - 1);
    }
}

/// What a run starts with goes on from a saved state that was read from `path`,
/// with the pictures that its folder holds.
pub open spec fn resumes(
    path: Seq<char>,
    state: Saved,
    found: Seq<Seq<char>>,
    settings: Settings,
    pb: Playback,
    save_path: Option<Seq<char>>,
) -> bool {
    &&& settings == (Settings {
        folder: Some(state.folder),
        interval_secs: clamped_interval(state.interval_secs),
        display_count: clamped_count(state.display_count),
        show_panel: false,
    })
    &&& pb == restored(pb.order, pb.cursor, state.cycle, pb.last_shown)
    &&& reconciled(state, found, pb.order, pb.cursor, pb.last_shown)
    &&& save_path == Some(path)
}

/// What a first run starts with.
pub open spec fn starts_anew(
    settings: Settings,
    pb: Playback,
    save_path: Option<Seq<char>>,
) -> bool {
    &&& settings == (Settings {
        folder: None,
        interval_secs: DEFAULT_INTERVAL_SECS,
        display_count: DEFAULT_DISPLAY_COUNT,
        show_panel: false,
    })
    &&& pb == restored(Seq::empty(), 0, 0, Seq::empty())
    &&& save_path is None
}

/// The settings and the play state to start with, and where the state is
/// written: those of the saved state, where one was read and `scanned` holds the
/// pictures of its folder; otherwise, where none was read or its folder is gone,
/// those of a first start.
pub fn build_initial(
    saved: Option<(String, PersistState)>,
    scanned: Option<Vec<String>>,
) -> (initial: (SettingsState, PlaybackState, Option<String>))
    ensures
        initial.0@.wf(),
        match (saved, scanned) {
            (Some((path, state)), Some(found)) => resumes(
                path@,
                state@,
                names(found@),
                initial.0@,
                initial.1@,
                name_of(initial.2),
            ),
            _ => starts_anew(initial.0@, initial.1@, name_of(initial.2)),
        },
{
    match (saved, scanned) {
        (Some((path, state)), Some(found)) => {
            let (play_order, cursor, last_shown) = reconcile(&state, &found);
            let playback = PlaybackState::from_restored(
                play_order,
                cursor,
                state.cycle_count,
                last_shown,
            );
            let settings = SettingsState::new(
                Some(state.folder),
                state.interval_secs,
                state.display_count,
            );
            (settings, playback, Some(path))
        },
        _ => {
            let none: Vec<String> = Vec::new();
            let playback = PlaybackState::new(none);
            proof {
                assert(names(none@) =~= Seq::empty());
                names(none@).to_multiset_ensures();
                playback@.order.to_multiset_ensures();
                assert(playback@.order =~= Seq::empty());
            }
            (SettingsState::defaults(None), playback, None)
        },
    }
}

/// Where a saved state was brought together with its folder, the order holds
/// exactly the pictures of the folder, each once. The pictures that had been
/// shown come first, and are those up to the cursor; the pictures last shown are
/// two at most, and are there.
pub proof fn law_reconciled_is_the_folder(
    state: Saved,
    scanned: Seq<Seq<char>>,
    order: Seq<Seq<char>>,
    cursor: int,
    last_shown: Seq<Seq<char>>,
)
    requires
        reconciled(state, scanned, order, cursor, last_shown),
        scanned.no_duplicates(),
    ensures
        rearranged(scanned, order),
        order.no_duplicates(),
        forall|p: Seq<char>| #[trigger] order.contains(p) <==> scanned.contains(p),
        0 <= cursor <= order.len(),
        order.take(cursor) == surviving(state.order, scanned.to_set(), shown_count(state)),
        last_shown.len() <= 2,
        forall|i: int| 0 <= i < last_shown.len() ==> scanned.contains(#[trigger] last_shown[i]),
{
    let found = scanned.to_set();
    let n = state.order.len() as int;
    let kept = surviving(state.order, found, n);
    let count = kept.len() as int;
    let fresh = |p: Seq<char>| !state.order.contains(p);
    let new = unknown(state.order, scanned);
    let end = order.skip(count);
    lemma_surviving_members(state.order, found, n);
    lemma_surviving_prefix(state.order, found, shown_count(state), n);
    lemma_filter_members(scanned, fresh);
    assert(state.order.take(n) =~= state.order);
    lemma_rearranged(new, end);
    assert(order =~= kept + end);
    assert(order.no_duplicates()) by {
        assert forall|i: int, j: int| 0 <= i < kept.len() && 0 <= j < end.len() implies kept[i]
            != end[j] by {
            assert(kept.contains(kept[i]));
            assert(end.contains(end[j]));
            assert(new.contains(end[j]));
        }
        lemma_no_dup_in_concat(kept, end);
    }
    assert forall|p: Seq<char>| #[trigger] order.contains(p) <==> scanned.contains(p) by {
        if order.contains(p) {
            let k = choose|k: int| 0 <= k < order.len() && order[k] == p;
            if k < count {
                assert(kept[k] == p);
                assert(kept.contains(p));
            } else {
                assert(end[k - count] == p);
                assert(end.contains(p));
                assert(new.contains(p));
            }
        }
        if scanned.contains(p) {
            if state.order.contains(p) {
                assert(kept.contains(p));
                let k = choose|k: int| 0 <= k < kept.len() && kept[k] == p;
                assert(order[k] == p);
            } else {
                assert(new.contains(p));
                assert(end.contains(p));
                let k = choose|k: int| 0 <= k < end.len() && end[k] == p;
                assert(order[count + k] == p);
            }
        }
    }
    assert(rearranged(scanned, order)) by {
        scanned.to_multiset_ensures();
        order.to_multiset_ensures();
        scanned.lemma_multiset_has_no_duplicates();
        order.lemma_multiset_has_no_duplicates();
        assert forall|p: Seq<char>| #[trigger]
            scanned.to_multiset().count(p) == order.to_multiset().count(p) by {
            assert(scanned.contains(p) <==> order.contains(p));
        }
        assert(scanned.to_multiset() =~= order.to_multiset());
    }
    let shown = surviving(state.order, found, shown_count(state));
    assert(order.take(cursor) =~= kept.take(cursor));
    let keep = |p: Seq<char>| found.contains(p);
    lemma_filter_members(state.last_shown, keep);
    let held = state.last_shown.filter(keep);
    assert forall|i: int| 0 <= i < last_shown.len() implies scanned.contains(
        #[trigger] last_shown[i],
    ) by {
        assert(held.contains(held[i]));
    }
}

/// What survives of the first `n` paths.
pub proof fn lemma_surviving_members(order: Seq<Seq<char>>, found: Set<Seq<char>>, n: int)
    requires
        0 <= n <= order.len(),
    ensures
        surviving(order, found, n).no_duplicates(),
        forall|p: Seq<char>|
            #[trigger] surviving(order, found, n).contains(p) <==> found.contains(p)
                && order.take(n).contains(p),
    decreases n,
{
    if n > 0 {
        lemma_surviving_members(order, found, n - 1);
        let before = surviving(order, found, n - 1);
        let path = order[n - 1];
        assert(order.take(n) =~= order.take(n - 1).push(path));
        lemma_push_members(order.take(n - 1), path);
        lemma_push_members(before, path);
    }
}

/// What survives of a part of the order comes first in what survives of it all.
proof fn lemma_surviving_prefix(order: Seq<Seq<char>>, found: Set<Seq<char>>, m: int, n: int)
    requires
        m <= n <= order.len(),
        0 <= n,
    ensures
        surviving(order, found, m).len() <= surviving(order, found, n).len(),
        surviving(order, found, n).take(surviving(order, found, m).len() as int) == surviving(
            order,
            found,
            m,
        ),
    decreases n,
{
    let k = surviving(order, found, m).len() as int;
    if m <= 0 {
        assert(surviving(order, found, n).take(0) =~= Seq::empty());
    } else if m < n {
        lemma_surviving_prefix(order, found, m, n - 1);
        let before = surviving(order, found, n - 1);
        assert(surviving(order, found, n).take(k) =~= before.take(k));
    } else {
        assert(surviving(order, found, n).take(k) =~= surviving(order, found, n));
    }
}

} // verus!
