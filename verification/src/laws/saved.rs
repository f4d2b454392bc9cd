//! What one run leaves to the next.

use crate::app::{saved_state, App};
use crate::decoder::worker_count;
use crate::paths::{lemma_filter_members, lemma_filter_next, lemma_rearranged};
use crate::persist::{
    chosen_after, law_newest_state_is_picked, law_reconciled_is_the_folder,
    lemma_surviving_members, newest, next_save, places, reconciled, remembered, resumes, save_at,
    shown_count, starts_anew, surviving, unknown, SaveAction, Saved, StoredState,
};
use crate::playback::Playback;
use crate::settings::{clamped_count, clamped_interval, Settings};
use crate::{
    DEFAULT_DISPLAY_COUNT, DEFAULT_INTERVAL_SECS, MAX_INTERVAL_SECS, MIN_INTERVAL_SECS,
};
use vstd::prelude::*;

verus! {

/// How far two numbers are apart.
pub open spec fn distance(a: int, b: int) -> int {
    if a < b {
        b - a
    } else {
        a - b
    }
}

/// A value is brought to the nearest one that is allowed, and one that is
/// allowed is kept.
pub proof fn law_nearest_value_is_taken(secs: u64, count: usize, other: int)
    ensures
        MIN_INTERVAL_SECS <= clamped_interval(secs) <= MAX_INTERVAL_SECS,
        MIN_INTERVAL_SECS <= secs <= MAX_INTERVAL_SECS ==> clamped_interval(secs) == secs,
        MIN_INTERVAL_SECS <= other <= MAX_INTERVAL_SECS ==> distance(
            clamped_interval(secs) as int,
            secs as int,
        ) <= distance(other, secs as int),
        1 <= clamped_count(count) <= 2,
        1 <= count <= 2 ==> clamped_count(count) == count,
        1 <= other <= 2 ==> distance(clamped_count(count) as int, count as int) <= distance(
            other,
            count as int,
        ),
        MIN_INTERVAL_SECS == 5,
        MAX_INTERVAL_SECS == 60,
{
}

/// Of a saved order without repeats, the pictures that are still there survive,
/// in the order in which they were.
pub proof fn law_survivors_keep_their_order(order: Seq<Seq<char>>, found: Set<Seq<char>>, n: int)
    requires
        order.no_duplicates(),
        0 <= n <= order.len(),
    ensures
        surviving(order, found, n) == order.take(n).filter(|p: Seq<char>| found.contains(p)),
    decreases n,
{
    let keep = |p: Seq<char>| found.contains(p);
    if n > 0 {
        law_survivors_keep_their_order(order, found, n - 1);
        lemma_filter_next(order, keep, n - 1);
        let head = order.take(n - 1);
        if head.contains(order[n - 1]) {
            let k = choose|k: int| 0 <= k < head.len() && head[k] == order[n - 1];
            assert(order[k] == order[n - 1]);
        }
    } else {
        reveal(Seq::filter);
        assert(order.take(n) =~= Seq::empty());
        assert(order.take(n).filter(keep) =~= Seq::empty());
    }
}

/// A run goes on in the middle of a cycle: the pictures that were shown in it
/// and are still there count as shown, in their order, and no others do; then
/// come those that were still to be shown, in their order; then those that are
/// new to the folder.
pub proof fn law_cycle_goes_on(
    state: Saved,
    scanned: Seq<Seq<char>>,
    order: Seq<Seq<char>>,
    cursor: int,
    last_shown: Seq<Seq<char>>,
)
    requires
        reconciled(state, scanned, order, cursor, last_shown),
        state.order.no_duplicates(),
        0 <= state.cursor <= state.order.len(),
        scanned.no_duplicates(),
    ensures
        ({
            let there = |p: Seq<char>| scanned.to_set().contains(p);
            let known = state.order.filter(there).len() as int;
            &&& order.take(cursor) == state.order.take(state.cursor).filter(there)
            &&& order.take(known) == state.order.filter(there)
            &&& forall|k: int|
                known <= k < order.len() ==> !state.order.contains(#[trigger] order[k])
        }),
{
    let found = scanned.to_set();
    let there = |p: Seq<char>| found.contains(p);
    let n = state.order.len() as int;
    law_reconciled_is_the_folder(state, scanned, order, cursor, last_shown);
    law_survivors_keep_their_order(state.order, found, state.cursor);
    law_survivors_keep_their_order(state.order, found, n);
    assert(state.order.take(n) =~= state.order);
    let kept = surviving(state.order, found, n);
    let count = kept.len() as int;
    let fresh = unknown(state.order, scanned);
    let end = order.skip(count);
    lemma_rearranged(fresh, end);
    lemma_filter_members(scanned, |p: Seq<char>| !state.order.contains(p));
    assert forall|k: int| count <= k < order.len() implies !state.order.contains(
        #[trigger] order[k],
    ) by {
        assert(end[k - count] == order[k]);
        assert(end.contains(order[k]));
        assert(fresh.contains(order[k]));
    }
}

/// Even from a saved order with repeats, or a cursor beyond its end: the
/// pictures up to the cursor are those that were shown and are still there.
pub proof fn law_shown_pictures_stay_shown(
    state: Saved,
    scanned: Seq<Seq<char>>,
    order: Seq<Seq<char>>,
    cursor: int,
    last_shown: Seq<Seq<char>>,
    p: Seq<char>,
)
    requires
        reconciled(state, scanned, order, cursor, last_shown),
        0 <= state.cursor,
        scanned.no_duplicates(),
    ensures
        0 <= cursor <= order.len(),
        state.cursor <= state.order.len() ==> (order.take(cursor).contains(p)
            <==> scanned.contains(p) && state.order.take(state.cursor).contains(p)),
        state.cursor > state.order.len() ==> (order.take(cursor).contains(p)
            <==> scanned.contains(p) && state.order.contains(p)),
{
    let found = scanned.to_set();
    law_reconciled_is_the_folder(state, scanned, order, cursor, last_shown);
    lemma_surviving_members(state.order, found, shown_count(state));
    assert(state.order.take(state.order.len() as int) =~= state.order);
}

/// The pictures last shown are remembered in their order, two at most, the
/// first ones that are still there.
pub proof fn law_last_shown_are_remembered(last_shown: Seq<Seq<char>>, found: Set<Seq<char>>)
    ensures
        ({
            let there = last_shown.filter(|p: Seq<char>| found.contains(p));
            let kept = remembered(last_shown, found);
            &&& kept.len() <= 2
            &&& kept.len() <= there.len()
            &&& kept.len() == 2 || kept.len() == there.len()
            &&& forall|i: int| 0 <= i < kept.len() ==> #[trigger] kept[i] == there[i]
        }),
{
}

/// What is written is what there is: the folder, the settings, the order, the
/// cursor, the cycle and the pictures last shown. It has the version that is
/// read, so the next run finds a state to go on with.
pub proof fn law_saved_state_is_read(
    app: App,
    folder: Seq<char>,
    stored: Seq<StoredState>,
    i: int,
)
    requires
        0 <= i < stored.len(),
        stored[i].state@ == saved_state(app, folder),
    ensures
        stored[i].state@.folder == folder,
        stored[i].state@.interval_secs == app.settings.interval_secs,
        stored[i].state@.display_count == app.settings.display_count,
        stored[i].state@.order == app.pb.order,
        stored[i].state@.cursor == app.pb.cursor,
        stored[i].state@.cycle == app.pb.cycle,
        stored[i].state@.last_shown == app.pb.last_shown,
        newest(stored, stored.len() as int) matches Some(b) && stored[b].modified
            >= stored[i].modified,
{
    law_newest_state_is_picked(stored, stored.len() as int);
}

/// A run that goes on from a saved state has its folder, its settings as far as
/// they are allowed, its cycle, and writes to where it was read; nothing waits
/// and nothing has failed. A first run has no folder, and the values that were
/// not chosen.
pub proof fn law_run_begins_as_it_was_left(
    path: Seq<char>,
    state: Saved,
    found: Seq<Seq<char>>,
    settings: Settings,
    pb: Playback,
    save_path: Option<Seq<char>>,
)
    ensures
        resumes(path, state, found, settings, pb, save_path) ==> {
            &&& settings.folder == Some(state.folder)
            &&& MIN_INTERVAL_SECS <= state.interval_secs <= MAX_INTERVAL_SECS
                ==> settings.interval_secs == state.interval_secs
            &&& 1 <= state.display_count <= 2 ==> settings.display_count == state.display_count
            &&& settings.wf()
            &&& !settings.show_panel
            &&& pb.cycle == state.cycle
            &&& pb.pending.len() == 0
            &&& pb.fails == Map::<Seq<char>, u32>::empty()
            &&& !pb.empty_active
            &&& save_path == Some(path)
        },
        starts_anew(settings, pb, save_path) ==> {
            &&& settings.folder is None
            &&& settings.interval_secs == DEFAULT_INTERVAL_SECS
            &&& settings.display_count == DEFAULT_DISPLAY_COUNT
            &&& settings.wf()
            &&& !settings.show_panel
            &&& pb.order.len() == 0
            &&& pb.cursor == 0
            &&& pb.cycle == 0
            &&& pb.pending.len() == 0
            &&& pb.last_shown.len() == 0
            &&& pb.fails == Map::<Seq<char>, u32>::empty()
            &&& !pb.empty_active
            &&& save_path is None
        },
        DEFAULT_INTERVAL_SECS == 15,
        DEFAULT_DISPLAY_COUNT == 2,
{
}

/// The places for the state file come in their order: beside the executable,
/// then the folder for application data, then the current folder; none that
/// there is is left out.
pub proof fn law_places_come_in_order(exe: String, data: String, current: String)
    ensures
        places(Some(exe), Some(data), Some(current)) == seq![exe@, data@, current@],
        places(Some(exe), Some(data), None) == seq![exe@, data@],
        places(Some(exe), None, Some(current)) == seq![exe@, current@],
        places(None, Some(data), Some(current)) == seq![data@, current@],
        places(Some(exe), None, None) == seq![exe@],
        places(None, Some(data), None) == seq![data@],
        places(None, None, Some(current)) == seq![current@],
        places(None, None, None) == Seq::<Seq<char>>::empty(),
{
    assert(places(Some(exe), Some(data), Some(current)) =~= seq![exe@, data@, current@]);
    assert(places(Some(exe), Some(data), None) =~= seq![exe@, data@]);
    assert(places(Some(exe), None, Some(current)) =~= seq![exe@, current@]);
    assert(places(None, Some(data), Some(current)) =~= seq![data@, current@]);
    assert(places(Some(exe), None, None) =~= seq![exe@]);
    assert(places(None, Some(data), None) =~= seq![data@]);
    assert(places(None, None, Some(current)) =~= seq![current@]);
    assert(places(None, None, None) =~= Seq::empty());
}

/// The candidates for the state file are tried in turn. The first that can be
/// written becomes its place, and the whole state goes there: written apart,
/// then renamed. Where none can, there is nowhere to save.
pub proof fn law_first_writable_place_is_taken(
    chosen: Option<String>,
    candidates: Seq<String>,
    oks: Seq<bool>,
    k: int,
)
    requires
        0 <= k <= candidates.len() <= usize::MAX,
        forall|j: int| 0 <= j < k ==> !(#[trigger] oks[j]),
    ensures
        ({
            let count = candidates.len() as int;
            &&& k < count ==> save_at(false, count, oks, k) == SaveAction::Probe(k as usize)
            &&& k < count && oks[k] ==> {
                &&& save_at(false, count, oks, k + 1) == SaveAction::WriteTemp
                &&& chosen_after(chosen, candidates, SaveAction::Probe(k as usize), true)
                    == Some(candidates[k])
            }
            &&& chosen_after(chosen, candidates, SaveAction::Probe(k as usize), false) == chosen
            &&& k == count ==> save_at(false, count, oks, k) == SaveAction::NoLocation
        }),
    decreases k,
{
    let count = candidates.len() as int;
    if k > 0 {
        law_first_writable_place_is_taken(chosen, candidates, oks, k - 1);
        assert(!oks[k - 1]);
    }
}

/// A place that is settled is kept, and written at once. A write that goes well
/// is followed by the rename, and a rename that goes well ends the save; one
/// that fails takes the temporary file away. What has ended stays so.
pub proof fn law_save_runs_its_course(
    chosen: Option<String>,
    candidates: Seq<String>,
    oks: Seq<bool>,
    ok: bool,
)
    ensures
        ({
            let count = candidates.len() as int;
            &&& save_at(true, count, oks, 0) == SaveAction::WriteTemp
            &&& next_save(SaveAction::WriteTemp, true, count) == SaveAction::Replace
            &&& next_save(SaveAction::WriteTemp, false, count) == SaveAction::Failed
            &&& next_save(SaveAction::Replace, true, count) == SaveAction::Saved
            &&& next_save(SaveAction::Replace, false, count) == SaveAction::RemoveTemp
            &&& next_save(SaveAction::RemoveTemp, ok, count) == SaveAction::Failed
            &&& next_save(SaveAction::Saved, ok, count) == SaveAction::Saved
            &&& next_save(SaveAction::Failed, ok, count) == SaveAction::Failed
            &&& next_save(SaveAction::NoLocation, ok, count) == SaveAction::NoLocation
            &&& forall|action: SaveAction|
                !(action is Probe) ==> #[trigger] chosen_after(chosen, candidates, action, ok)
                    == chosen
        }),
{
}

/// As many worker threads run as were asked for. Where the number is left open,
/// one core is left to the display, one worker runs at least and four at most;
/// more cores never mean fewer workers.
pub proof fn law_one_core_is_left(requested: usize, cores: usize, more: usize)
    ensures
        requested > 0 ==> worker_count(requested, Some(cores)) == requested && worker_count(
            requested,
            None,
        ) == requested,
        1 <= worker_count(0, Some(cores)) <= 4,
        2 <= cores <= 5 ==> worker_count(0, Some(cores)) + 1 == cores,
        cores <= more ==> worker_count(0, Some(cores)) <= worker_count(0, Some(more)),
        worker_count(0, None) == 1,
        cores > 5 ==> worker_count(0, Some(cores)) == 4,
{
}

} // verus!
