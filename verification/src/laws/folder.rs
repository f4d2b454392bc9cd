//! The looks at the folder: who joins, who waits, who leaves, and who stays.

use crate::app::App;
use crate::cache::Cache;
use crate::coherence::{
    coherent, law_rescan_keeps_coherence, law_settled_file_joins, lemma_promoted, lemma_tail_same,
};
use crate::decoder::Pool;
use crate::frame::rescans_to;
use crate::paths::{lemma_filter_members, rearranged};
use crate::playback::{Pending, Playback};
use crate::scanner::{
    newcomers, pending_paths, promoted, rescanned, scan_paths, swept_tail, swept_window, unsettled,
    FileStat, Scanned, Sweep,
};
use vstd::prelude::*;

verus! {

/// How many pictures count as being on display: as many as the user wants, one
/// at least, as far as there are that many.
pub open spec fn on_display(window: int, display_count: int) -> int {
    let wanted = if display_count > 1 {
        display_count
    } else {
        1
    };
    if wanted < window {
        wanted
    } else {
        window
    }
}

/// A waiting file joins the order if and only if both its size and its time of
/// last change are what they were at the look before, and it is in the folder.
/// If either differs, it waits on, with the size and the time that it has now;
/// if it cannot be looked at, it is forgotten.
pub proof fn law_file_joins_once_it_has_stopped_changing(
    pb: Playback,
    cache: Cache,
    files: Seq<Scanned>,
    stats: Seq<Option<FileStat>>,
    display_count: int,
    i: int,
)
    requires
        coherent(pb, cache),
        stats.len() == pb.pending.len(),
        0 <= i < pb.pending.len(),
    ensures
        ({
            let (next, _, changed) = rescanned(pb, cache, files, stats, display_count);
            let file = pb.pending[i];
            let there = scan_paths(files).contains(file.path);
            match stats[i] {
                Some(stat) => {
                    let same = stat.size == file.size && stat.modified == file.modified;
                    &&& next.order.contains(file.path) <==> same && there
                    &&& same ==> changed && !pending_paths(next.pending).contains(file.path)
                    &&& !same && there ==> next.pending.contains(
                        Pending { path: file.path, size: stat.size, modified: stat.modified },
                    )
                    &&& !there ==> !pending_paths(next.pending).contains(file.path)
                },
                None => {
                    &&& !next.order.contains(file.path)
                    &&& !pending_paths(next.pending).contains(file.path)
                },
            }
        }),
{
    let found = scan_paths(files).to_set();
    let known = pb.order.to_set() + pending_paths(pb.pending).to_set();
    let count = pb.pending.len() as int;
    let file = pb.pending[i];
    let paths = pending_paths(pb.pending);
    let changing = unsettled(pb.pending, stats, count);
    let fresh = newcomers(files, known, files.len() as int);
    let waiting = changing + fresh;
    let keep = |f: Pending| found.contains(f.path);
    let (next, _, changed) = rescanned(pb, cache, files, stats, display_count);
    law_settled_file_joins(pb, cache, files, stats, display_count, i);
    lemma_unsettled_one(pb.pending, stats, count, i);
    lemma_filter_members(waiting, keep);
    assert(paths[i] == file.path);
    assert(paths.contains(file.path));
    lemma_newcomers_unknown(files, known, files.len() as int);
    let kept = pending_paths(next.pending);
    if let Some(stat) = stats[i] {
        let again = Pending { path: file.path, size: stat.size, modified: stat.modified };
        if changing.contains(again) {
            let k = choose|k: int| 0 <= k < changing.len() && changing[k] == again;
            assert(waiting[k] == again);
        }
    }
    if kept.contains(file.path) {
        let k = choose|k: int| 0 <= k < kept.len() && kept[k] == file.path;
        assert(next.pending.contains(next.pending[k]));
        let j = choose|j: int| 0 <= j < waiting.len() && waiting[j] == next.pending[k];
        if j < changing.len() {
            assert(changing[j].path == file.path);
            assert(pending_paths(changing)[j] == file.path);
        } else {
            assert(fresh[j - changing.len()].path == file.path);
        }
    }
}

/// A file that was waiting waits on if and only if it can be looked at and has
/// changed.
proof fn lemma_unsettled_one(pending: Seq<Pending>, stats: Seq<Option<FileStat>>, n: int, i: int)
    requires
        pending_paths(pending).no_duplicates(),
        0 <= i < n <= pending.len(),
    ensures
        ({
            let file = pending[i];
            let changing = unsettled(pending, stats, n);
            match stats[i] {
                Some(stat) => if stat.size == file.size && stat.modified == file.modified {
                    !pending_paths(changing).contains(file.path)
                } else {
                    changing.contains(
                        Pending { path: file.path, size: stat.size, modified: stat.modified },
                    )
                },
                None => !pending_paths(changing).contains(file.path),
            }
        }),
    decreases n,
{
    let file = pending[i];
    let before = unsettled(pending, stats, n - 1);
    let after = unsettled(pending, stats, n);
    let paths = pending_paths(pending);
    let earlier = pending_paths(before);
    let later = pending_paths(after);
    assert(paths[i] == file.path && paths[n - 1] == pending[n - 1].path);
    lemma_promoted(pending, stats, n - 1);
    if i == n - 1 {
        if earlier.contains(file.path) {
            let c = choose|c: int| 0 <= c < n - 1 && #[trigger] paths[c] == file.path;
        }
        if let Some(stat) = stats[i] {
            let again = Pending { path: file.path, size: stat.size, modified: stat.modified };
            if !(stat.size == file.size && stat.modified == file.modified) {
                assert(after.last() == again);
            }
        }
    } else {
        lemma_unsettled_one(pending, stats, n - 1, i);
        if let Some(stat) = stats[i] {
            let again = Pending { path: file.path, size: stat.size, modified: stat.modified };
            if before.contains(again) {
                let k = choose|k: int| 0 <= k < before.len() && before[k] == again;
                assert(after[k] == again);
            }
        }
        if later.contains(file.path) && !earlier.contains(file.path) {
            let k = choose|k: int| 0 <= k < later.len() && later[k] == file.path;
            if k < before.len() {
                assert(earlier[k] == later[k]);
            }
        }
    }
}

proof fn lemma_newcomers_unknown(files: Seq<Scanned>, known: Set<Seq<char>>, n: int)
    requires
        0 <= n <= files.len(),
    ensures
        forall|k: int|
            0 <= k < newcomers(files, known, n).len() ==> !known.contains(
                (#[trigger] newcomers(files, known, n)[k]).path,
            ),
    decreases n,
{
    if n > 0 {
        lemma_newcomers_unknown(files, known, n - 1);
        let before = newcomers(files, known, n - 1);
        let after = newcomers(files, known, n);
        assert forall|k: int| 0 <= k < after.len() implies !known.contains(
            (#[trigger] after[k]).path,
        ) by {
            if k < before.len() {
                assert(after[k] == before[k]);
            }
        }
    }
}

/// Pictures on display stay where they are, in or out of the folder.
pub proof fn law_pictures_on_display_stay(
    pb: Playback,
    cache: Cache,
    files: Seq<Scanned>,
    stats: Seq<Option<FileStat>>,
    display_count: int,
    i: int,
)
    requires
        coherent(pb, cache),
        stats.len() == pb.pending.len(),
        0 <= i < cache.window.len(),
        i == 0 || i < display_count,
    ensures
        ({
            let (next, window, _) = rescanned(pb, cache, files, stats, display_count);
            &&& i < window.window.len()
            &&& window.window[i] == cache.window[i]
            &&& next.order[pb.cursor + i] == cache.window[i].path
        }),
{
    let (next, window, _) = rescanned(pb, cache, files, stats, display_count);
    lemma_tail_same(next.order, next.cursor + window.window.len());
    law_rescan_keeps_coherence(pb, cache, files, stats, display_count, next.order);
    let shown = on_display(cache.window.len() as int, display_count);
    assert(window.window.take(shown)[i] == cache.window.take(shown)[i]);
    assert(window.window[i].path == next.order[pb.cursor + i]);
}

/// Behind the pictures on display, what is not in the folder leaves: the order,
/// the window and the waiting files. What is in the folder stays.
pub proof fn law_vanished_pictures_leave(
    pb: Playback,
    cache: Cache,
    files: Seq<Scanned>,
    stats: Seq<Option<FileStat>>,
    display_count: int,
    path: Seq<char>,
)
    requires
        coherent(pb, cache),
        stats.len() == pb.pending.len(),
        !scan_paths(files).contains(path),
    ensures
        ({
            let (next, window, changed) = rescanned(pb, cache, files, stats, display_count);
            let shown = pb.cursor + on_display(cache.window.len() as int, display_count);
            &&& forall|k: int| shown <= k < next.order.len() ==> #[trigger] next.order[k] != path
            &&& !pending_paths(next.pending).contains(path)
            &&& pb.order.contains(path) && !next.order.contains(path) ==> changed
        }),
{
    let (next, window, changed) = rescanned(pb, cache, files, stats, display_count);
    lemma_tail_same(next.order, next.cursor + window.window.len());
    law_rescan_keeps_coherence(pb, cache, files, stats, display_count, next.order);
    let found = scan_paths(files).to_set();
    let known = pb.order.to_set() + pending_paths(pb.pending).to_set();
    let waiting = unsettled(pb.pending, stats, pb.pending.len() as int) + newcomers(
        files,
        known,
        files.len() as int,
    );
    lemma_filter_members(waiting, |f: Pending| found.contains(f.path));
    let kept = pending_paths(next.pending);
    if kept.contains(path) {
        let k = choose|k: int| 0 <= k < kept.len() && kept[k] == path;
        assert(next.pending.contains(next.pending[k]));
    }
    if !changed {
        law_unchanged_look_keeps_the_order(pb, cache, files, stats, display_count);
    }
}

/// A look that says that nothing has changed has changed neither the order nor
/// the window nor what is decoded or asked for.
pub proof fn law_unchanged_look_keeps_the_order(
    pb: Playback,
    cache: Cache,
    files: Seq<Scanned>,
    stats: Seq<Option<FileStat>>,
    display_count: int,
)
    requires
        coherent(pb, cache),
        stats.len() == pb.pending.len(),
        !rescanned(pb, cache, files, stats, display_count).2,
    ensures
        rescanned(pb, cache, files, stats, display_count).0.order == pb.order,
        rescanned(pb, cache, files, stats, display_count).1 == cache,
{
    let (next, window, _) = rescanned(pb, cache, files, stats, display_count);
    let found = scan_paths(files).to_set();
    let joined = promoted(pb.pending, stats, pb.pending.len() as int);
    let shown = on_display(cache.window.len() as int, display_count);
    assert(joined =~= Seq::empty());
    assert(pb.order + joined =~= pb.order);
    let start = Sweep { order: pb.order + joined, cache, changed: false };
    let len = cache.window.len() as int;
    lemma_sweep_window(start, pb.cursor, found, shown, len);
    lemma_unswept(start, pb.cursor, found, shown, len);
    let s = swept_window(start, pb.cursor, found, shown, len);
    let from = pb.cursor + s.cache.window.len();
    lemma_unfiltered(s.order, found, from);
    assert(window =~= cache);
}

proof fn lemma_unswept(s: Sweep, cursor: int, found: Set<Seq<char>>, floor: int, k: int)
    requires
        !swept_window(s, cursor, found, floor, k).changed,
    ensures
        swept_window(s, cursor, found, floor, k) == s,
    decreases k,
{
    if k > floor && k > 0 {
        let i = k - 1;
        if found.contains(s.cache.window[i].path) {
            lemma_unswept(s, cursor, found, floor, i);
        } else {
            let next = Sweep {
                order: if cursor + i < s.order.len() && s.order[cursor + i]
                    == s.cache.window[i].path {
                    s.order.remove(cursor + i)
                } else {
                    s.order.remove_value(s.cache.window[i].path)
                },
                cache: Cache { blocked: false, ..s.cache.without(i) },
                changed: true,
            };
            lemma_stays_changed(next, cursor, found, floor, i);
        }
    }
}

proof fn lemma_stays_changed(s: Sweep, cursor: int, found: Set<Seq<char>>, floor: int, k: int)
    requires
        s.changed,
    ensures
        swept_window(s, cursor, found, floor, k).changed,
    decreases k,
{
    if k > floor && k > 0 {
        let i = k - 1;
        let next = if found.contains(s.cache.window[i].path) {
            s
        } else {
            Sweep {
                order: if cursor + i < s.order.len() && s.order[cursor + i]
                    == s.cache.window[i].path {
                    s.order.remove(cursor + i)
                } else {
                    s.order.remove_value(s.cache.window[i].path)
                },
                cache: Cache { blocked: false, ..s.cache.without(i) },
                changed: true,
            }
        };
        lemma_stays_changed(next, cursor, found, floor, i);
    }
}

/// A tail that is as long as it was has lost nothing.
proof fn lemma_unfiltered(order: Seq<Seq<char>>, found: Set<Seq<char>>, from: int)
    requires
        0 <= from,
        swept_tail(order, found, from).len() == order.len(),
    ensures
        swept_tail(order, found, from) == order,
{
    if from < order.len() {
        let keep = |p: Seq<char>| found.contains(p);
        let tail = order.skip(from);
        lemma_all_kept(tail, keep);
        assert(order.take(from) + tail =~= order);
    }
}

proof fn lemma_all_kept(s: Seq<Seq<char>>, keep: spec_fn(Seq<char>) -> bool)
    requires
        s.filter(keep).len() == s.len(),
    ensures
        s.filter(keep) == s,
    decreases s.len(),
{
    reveal(Seq::filter);
    if s.len() > 0 {
        s.drop_last().lemma_filter_len(keep);
        lemma_all_kept(s.drop_last(), keep);
        assert(s =~= s.drop_last().push(s.last()));
    } else {
        assert(s.filter(keep) =~= s);
    }
}

/// A sweep of the window filters the order between the display and the end of
/// the window.
proof fn lemma_sweep_window(s: Sweep, cursor: int, found: Set<Seq<char>>, floor: int, k: int)
    requires
        0 <= cursor,
        0 <= floor <= k <= s.cache.window.len(),
        cursor + s.cache.window.len() <= s.order.len(),
        forall|i: int|
            0 <= i < s.cache.window.len() ==> (#[trigger] s.cache.window[i]).path
                == s.order[cursor + i],
    ensures
        ({
            let keep = |p: Seq<char>| found.contains(p);
            let end = swept_window(s, cursor, found, floor, k);
            let kept = s.order.subrange(cursor + floor, cursor + k).filter(keep);
            &&& end.order == s.order.take(cursor + floor) + kept + s.order.skip(cursor + k)
            &&& end.cache.window.len() == s.cache.window.len() - (k - floor) + kept.len()
        }),
    decreases k,
{
    reveal(Seq::filter);
    let keep = |p: Seq<char>| found.contains(p);
    let part = s.order.subrange(cursor + floor, cursor + k);
    if k > floor {
        let i = k - 1;
        let path = s.cache.window[i].path;
        let less = s.order.subrange(cursor + floor, cursor + i);
        assert(s.order[cursor + i] == path);
        assert(part.drop_last() =~= less);
        assert(part.last() == path);
        if found.contains(path) {
            lemma_sweep_window(s, cursor, found, floor, i);
            assert(s.order.take(cursor + floor) + less.filter(keep) + s.order.skip(cursor + i)
                =~= s.order.take(cursor + floor) + less.filter(keep).push(path) + s.order.skip(
                cursor + k,
            ));
        } else {
            let rest = s.order.remove(cursor + i);
            let next = Sweep {
                order: rest,
                cache: Cache { blocked: false, ..s.cache.without(i) },
                changed: true,
            };
            assert forall|j: int| 0 <= j < next.cache.window.len() implies (
            #[trigger] next.cache.window[j]).path == rest[cursor + j] by {
                let o = if j < i {
                    j
                } else {
                    j + 1
                };
                assert(next.cache.window[j] == s.cache.window[o]);
            }
            lemma_sweep_window(next, cursor, found, floor, i);
            assert(rest.subrange(cursor + floor, cursor + i) =~= less);
            assert(rest.take(cursor + floor) =~= s.order.take(cursor + floor));
            assert(rest.skip(cursor + i) =~= s.order.skip(cursor + k));
        }
    } else {
        assert(part =~= Seq::empty());
        assert(part.filter(keep) =~= Seq::empty());
        assert(s.order =~= s.order.take(cursor + floor) + Seq::empty() + s.order.skip(cursor + k));
    }
}

/// Where no waiting file joins, the order is what it was, but for the pictures
/// behind the display that are gone: the others stay in their order.
pub proof fn law_look_only_takes_out(
    pb: Playback,
    cache: Cache,
    files: Seq<Scanned>,
    stats: Seq<Option<FileStat>>,
    display_count: int,
)
    requires
        coherent(pb, cache),
        stats.len() == pb.pending.len(),
        forall|i: int|
            0 <= i < pb.pending.len() ==> (#[trigger] stats[i] matches Some(stat) ==> stat.size
                != pb.pending[i].size || stat.modified != pb.pending[i].modified),
    ensures
        ({
            let (next, _, _) = rescanned(pb, cache, files, stats, display_count);
            let shown = pb.cursor + on_display(cache.window.len() as int, display_count);
            next.order == pb.order.take(shown) + pb.order.skip(shown).filter(
                |p: Seq<char>| scan_paths(files).to_set().contains(p),
            )
        }),
{
    let found = scan_paths(files).to_set();
    let keep = |p: Seq<char>| found.contains(p);
    let joined = promoted(pb.pending, stats, pb.pending.len() as int);
    lemma_none_joins(pb.pending, stats, pb.pending.len() as int);
    assert(pb.order + joined =~= pb.order);
    let floor = on_display(cache.window.len() as int, display_count);
    let len = cache.window.len() as int;
    let shown = pb.cursor + floor;
    let start = Sweep { order: pb.order + joined, cache, changed: false };
    lemma_sweep_window(start, pb.cursor, found, floor, len);
    let s = swept_window(start, pb.cursor, found, floor, len);
    let from = pb.cursor + s.cache.window.len();
    let part = pb.order.subrange(shown, pb.cursor + len);
    let tail = pb.order.skip(pb.cursor + len);
    let kept = part.filter(keep);
    let head = pb.order.take(shown) + kept;
    part.lemma_filter_len(keep);
    assert(head.len() == from);
    assert(s.order.take(from) =~= head);
    assert(s.order.skip(from) =~= tail);
    if from >= s.order.len() {
        assert(tail =~= Seq::empty());
        reveal(Seq::filter);
        assert(tail.filter(keep) =~= Seq::empty());
    }
    let (next, _, _) = rescanned(pb, cache, files, stats, display_count);
    assert(next.order =~= head + tail.filter(keep));
    Seq::filter_distributes_over_add(part, tail, keep);
    assert(part + tail =~= pb.order.skip(shown));
    assert(next.order =~= pb.order.take(shown) + (kept + tail.filter(keep)));
}

proof fn lemma_none_joins(pending: Seq<Pending>, stats: Seq<Option<FileStat>>, n: int)
    requires
        0 <= n <= pending.len() == stats.len(),
        forall|i: int|
            0 <= i < pending.len() ==> (#[trigger] stats[i] matches Some(stat) ==> stat.size
                != pending[i].size || stat.modified != pending[i].modified),
    ensures
        promoted(pending, stats, n) == Seq::<Seq<char>>::empty(),
    decreases n,
{
    if n > 0 {
        lemma_none_joins(pending, stats, n - 1);
        assert(stats[n - 1] matches Some(stat) ==> stat.size != pending[n - 1].size
            || stat.modified != pending[n - 1].modified);
    }
}

/// Whatever waits afterwards is in the folder, and waited before or was not
/// known.
pub proof fn law_only_new_and_changing_files_wait(
    pb: Playback,
    cache: Cache,
    files: Seq<Scanned>,
    stats: Seq<Option<FileStat>>,
    display_count: int,
    path: Seq<char>,
)
    requires
        coherent(pb, cache),
        stats.len() == pb.pending.len(),
        pending_paths(rescanned(pb, cache, files, stats, display_count).0.pending).contains(path),
    ensures
        scan_paths(files).contains(path),
        pending_paths(pb.pending).contains(path) || !pb.order.contains(path),
{
    let found = scan_paths(files).to_set();
    let known = pb.order.to_set() + pending_paths(pb.pending).to_set();
    let count = pb.pending.len() as int;
    let changing = unsettled(pb.pending, stats, count);
    let fresh = newcomers(files, known, files.len() as int);
    let waiting = changing + fresh;
    let (next, _, _) = rescanned(pb, cache, files, stats, display_count);
    lemma_filter_members(waiting, |f: Pending| found.contains(f.path));
    lemma_newcomers_unknown(files, known, files.len() as int);
    lemma_promoted(pb.pending, stats, count);
    let kept = pending_paths(next.pending);
    let k = choose|k: int| 0 <= k < kept.len() && kept[k] == path;
    assert(next.pending.contains(next.pending[k]));
    let j = choose|j: int| 0 <= j < waiting.len() && waiting[j] == next.pending[k];
    if j < changing.len() {
        assert(pending_paths(changing)[j] == path);
        assert(pending_paths(changing).contains(path));
        let c = choose|c: int| 0 <= c < count && #[trigger] pending_paths(pb.pending)[c] == path;
        assert(pending_paths(pb.pending).contains(path));
    } else {
        assert(fresh[j - changing.len()].path == path);
        if pb.order.contains(path) {
            assert(pb.order.to_set().contains(path));
        }
    }
}

/// A look at the folder touches the order, what waits and the window, and, where
/// the order has changed, starts a new epoch and asks for the state to be saved.
/// It leaves alone how far the cycle is, what was shown last, the failures, the
/// settings, and all that the user sees and set.
pub proof fn law_look_leaves_the_rest(
    app: App,
    files: Seq<Scanned>,
    stats: Seq<Option<FileStat>>,
    now: u64,
    end: App,
)
    requires
        coherent(app.pb, app.cache),
        stats.len() == app.pb.pending.len(),
        rescans_to(app, files, stats, now, end),
    ensures
        end.last_rescan == now,
        end.pb.cursor == app.pb.cursor,
        end.pb.cycle == app.pb.cycle,
        end.pb.last_shown == app.pb.last_shown,
        end.pb.fails == app.pb.fails,
        end.pb.empty_active == app.pb.empty_active,
        end == (App {
            pb: end.pb,
            cache: end.cache,
            pool: end.pool,
            last_rescan: now,
            dirty: end.dirty,
            ..app
        }),
        end.pool == (Pool { epoch: end.pool.epoch, ..app.pool }),
        app.dirty ==> end.dirty,
        end.pb.order != app.pb.order ==> {
            &&& end.dirty
            &&& end.cache.epoch != app.cache.epoch
            &&& end.pool.epoch == end.cache.epoch
            &&& end.cache.ready.dom() == Set::<Seq<char>>::empty()
            &&& end.cache.inflight == Set::<Seq<char>>::empty()
            &&& !end.cache.blocked
        },
        end.cache.epoch == app.cache.epoch ==> end.pool == app.pool && end.cache == app.cache
            && end.pb.order == app.pb.order && end.dirty == app.dirty,
{
    let display_count = app.settings.display_count as int;
    let (next, window, changed) = rescanned(app.pb, app.cache, files, stats, display_count);
    lemma_sweep_epoch(
        Sweep {
            order: app.pb.order + promoted(app.pb.pending, stats, app.pb.pending.len() as int),
            cache: app.cache,
            changed: false,
        },
        app.pb.cursor,
        scan_paths(files).to_set(),
        on_display(app.cache.window.len() as int, display_count),
        app.cache.window.len() as int,
    );
    if !changed {
        law_unchanged_look_keeps_the_order(app.pb, app.cache, files, stats, display_count);
    } else {
        assert(end.cache.ready.dom() =~= Set::empty());
    }
}

proof fn lemma_sweep_epoch(s: Sweep, cursor: int, found: Set<Seq<char>>, floor: int, k: int)
    ensures
        swept_window(s, cursor, found, floor, k).cache.epoch == s.cache.epoch,
    decreases k,
{
    if k > floor && k > 0 {
        let i = k - 1;
        let next = if found.contains(s.cache.window[i].path) {
            s
        } else {
            Sweep {
                order: if cursor + i < s.order.len() && s.order[cursor + i]
                    == s.cache.window[i].path {
                    s.order.remove(cursor + i)
                } else {
                    s.order.remove_value(s.cache.window[i].path)
                },
                cache: Cache { blocked: false, ..s.cache.without(i) },
                changed: true,
            }
        };
        lemma_sweep_epoch(next, cursor, found, floor, i);
    }
}

/// In a look, the pictures on display by the user's setting stay in their
/// places; behind them, every picture of the order is in the folder.
pub proof fn law_look_goes_by_the_setting(
    app: App,
    files: Seq<Scanned>,
    stats: Seq<Option<FileStat>>,
    now: u64,
    end: App,
)
    requires
        coherent(app.pb, app.cache),
        stats.len() == app.pb.pending.len(),
        rescans_to(app, files, stats, now, end),
    ensures
        ({
            let shown = on_display(
                app.cache.window.len() as int,
                app.settings.display_count as int,
            );
            &&& end.cache.window.len() >= shown
            &&& end.cache.window.take(shown) == app.cache.window.take(shown)
            &&& end.pb.order.take(app.pb.cursor + shown) == app.pb.order.take(
                app.pb.cursor + shown,
            )
            &&& forall|k: int|
                app.pb.cursor + shown <= k < end.pb.order.len() ==> scan_paths(files).contains(
                    #[trigger] end.pb.order[k],
                )
        }),
        coherent(end.pb, end.cache),
{
    let display_count = app.settings.display_count as int;
    law_rescan_keeps_coherence(app.pb, app.cache, files, stats, display_count, end.pb.order);
    let shown = on_display(app.cache.window.len() as int, display_count);
    let cursor = app.pb.cursor;
    assert(end.pb.order.take(cursor + shown) =~= app.pb.order.take(cursor + shown)) by {
        assert forall|k: int| 0 <= k < cursor + shown implies end.pb.order[k]
            == app.pb.order[k] by {
            if k < cursor {
                assert(end.pb.order.take(cursor)[k] == app.pb.order.take(cursor)[k]);
            } else {
                let i = k - cursor;
                assert(end.cache.window.take(shown)[i] == app.cache.window.take(shown)[i]);
                assert(end.cache.window[i].path == end.pb.order[cursor + i]);
                assert(app.cache.window[i].path == app.pb.order[cursor + i]);
            }
        }
    }
}

/// Where files have joined, every order of the pictures behind the window may
/// come out of a look: none of them keeps its place for sure.
pub proof fn law_any_shuffle_may_come(
    app: App,
    files: Seq<Scanned>,
    stats: Seq<Option<FileStat>>,
    now: u64,
    end: App,
    order: Seq<Seq<char>>,
)
    requires
        rescans_to(app, files, stats, now, end),
        promoted(app.pb.pending, stats, app.pb.pending.len() as int).len() > 0,
        order.len() == end.pb.order.len(),
        end.cache.window.len() + app.pb.cursor < order.len(),
        order.take(app.pb.cursor + end.cache.window.len()) == end.pb.order.take(
            app.pb.cursor + end.cache.window.len(),
        ),
        rearranged(
            end.pb.order.skip(app.pb.cursor + end.cache.window.len()),
            order.skip(app.pb.cursor + end.cache.window.len()),
        ),
    ensures
        rescans_to(app, files, stats, now, App { pb: Playback { order, ..end.pb }, ..end }),
{
}

} // verus!
