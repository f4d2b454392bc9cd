//! The periodic look at the folder: new files join the play order once they
//! have stopped changing, and files that are gone leave it.

use crate::cache::{Cache, CacheState};
use crate::paths::{
    lemma_filter_next, lemma_names_push, lemma_names_remove, lemma_take_next, names, path_set,
    remove_first,
};
use crate::playback::{
    pending_view, tail_shuffled, Pending, PendingFile, Playback, PlaybackState,
};
use vstd::hash_set::StringHashSet;
use vstd::prelude::*;

verus! {

/// When the folder was last looked at, and how often it is, in nanoseconds.
pub struct ScannerState {
    pub last_rescan: u64,
    pub interval: u64,
}

impl ScannerState {
    pub fn new(interval: u64, now: u64) -> (scanner: Self)
        ensures
            scanner.last_rescan == now,
            scanner.interval == interval,
    {
        Self { last_rescan: now, interval }
    }
}

/// The size of a file in bytes and the time of its last change in nanoseconds
/// from the Unix epoch.
#[derive(Debug, Clone, Copy, PartialEq, Eq, Structural)]
pub struct FileStat {
    pub size: u64,
    pub modified: i128,
}

/// A picture that was found in the folder.
pub struct ScannedFile {
    pub path: String,
    /// Nothing where the file could not be looked at.
    pub stat: Option<FileStat>,
}

/// What a [`ScannedFile`] holds.
pub struct Scanned {
    pub path: Seq<char>,
    pub stat: Option<FileStat>,
}

impl View for ScannedFile {
    type V = Scanned;

    open spec fn view(&self) -> Scanned {
        Scanned { path: self.path@, stat: self.stat }
    }
}

/// What a list of [`ScannedFile`]s holds.
pub open spec fn scan_view(files: Seq<ScannedFile>) -> Seq<Scanned> {
    files.map_values(|f: ScannedFile| f@)
}

/// The paths of a scan.
pub open spec fn scan_paths(files: Seq<Scanned>) -> Seq<Seq<char>> {
    files.map_values(|f: Scanned| f.path)
}

/// The paths of a list of pending files.
pub open spec fn pending_paths(pending: Seq<Pending>) -> Seq<Seq<char>> {
    pending.map_values(|f: Pending| f.path)
}

/// The file is as it was when it was last looked at.
pub open spec fn settled(file: Pending, stat: Option<FileStat>) -> bool {
    stat == Some(FileStat { size: file.size, modified: file.modified })
}

/// The paths of the first `n` pending files that have stopped changing.
pub open spec fn promoted(
    pending: Seq<Pending>,
    stats: Seq<Option<FileStat>>,
    n: int,
) -> Seq<Seq<char>>
    decreases n,
{
    if n <= 0 {
        Seq::empty()
    } else {
        let before = promoted(pending, stats, n - 1);
        if settled(pending[n - 1], stats[n - 1]) {
            before.push(pending[n - 1].path)
        } else {
            before
        }
    }
}

/// Of the first `n` pending files, those that are there and still changing, as
/// they are now.
pub open spec fn unsettled(
    pending: Seq<Pending>,
    stats: Seq<Option<FileStat>>,
    n: int,
) -> Seq<Pending>
    decreases n,
{
    if n <= 0 {
        Seq::empty()
    } else {
        let before = unsettled(pending, stats, n - 1);
        match stats[n - 1] {
            Some(stat) => if settled(pending[n - 1], stats[n - 1]) {
                before
            } else {
                before.push(
                    Pending {
                        path: pending[n - 1].path,
                        size: stat.size,
                        modified: stat.modified,
                    },
                )
            },
            None => before,
        }
    }
}

/// Of the first `n` scanned files, those that are not in `known`, each once.
pub open spec fn newcomers(files: Seq<Scanned>, known: Set<Seq<char>>, n: int) -> Seq<Pending>
    decreases n,
{
    if n <= 0 {
        Seq::empty()
    } else {
        let before = newcomers(files, known, n - 1);
        let file = files[n - 1];
        if known.contains(file.path) || scan_paths(files).take(n - 1).contains(file.path) {
            before
        } else {
            match file.stat {
                Some(stat) => before.push(
                    Pending { path: file.path, size: stat.size, modified: stat.modified },
                ),
                None => before,
            }
        }
    }
}

/// A state in the course of taking out files that are gone.
#[verifier::ext_equal]
pub struct Sweep {
    pub order: Seq<Seq<char>>,
    pub cache: Cache,
    pub changed: bool,
}

/// From the window's place `k` down to `floor`, pictures that are not among
/// the `found` leave the window and the order.
pub open spec fn swept_window(
    s: Sweep,
    cursor: int,
    found: Set<Seq<char>>,
    floor: int,
    k: int,
) -> Sweep
    decreases k,
{
    if k <= floor || k <= 0 {
        s
    } else {
        let i = k - 1;
        let path = s.cache.window[i].path;
        let next = if found.contains(path) {
            s
        } else {
            Sweep {
                order: if cursor + i < s.order.len() && s.order[cursor + i] == path {
                    s.order.remove(cursor + i)
                } else {
                    s.order.remove_value(path)
                },
                cache: Cache { blocked: false, ..s.cache.without(i) },
                changed: true,
            }
        };
        swept_window(next, cursor, found, floor, i)
    }
}

/// The order with the paths from `from` on that are not among the `found`
/// taken out.
pub open spec fn swept_tail(order: Seq<Seq<char>>, found: Set<Seq<char>>, from: int) -> Seq<
    Seq<char>,
> {
    if from >= order.len() {
        order
    } else {
        order.take(from) + order.skip(from).filter(|p: Seq<char>| found.contains(p))
    }
}

/// How many pictures count as being on display.
pub open spec fn displayed(cache: Cache, display_count: int) -> int {
    let wanted = if display_count < 1 {
        1
    } else {
        display_count
    };
    if cache.window.len() < wanted {
        cache.window.len() as int
    } else {
        wanted
    }
}

/// The state after a look at the folder, but for the shuffle.
pub open spec fn rescanned(
    pb: Playback,
    cache: Cache,
    files: Seq<Scanned>,
    stats: Seq<Option<FileStat>>,
    display_count: int,
) -> (Playback, Cache, bool) {
    let found = scan_paths(files).to_set();
    let known = pb.order.to_set() + pending_paths(pb.pending).to_set();
    let joined = promoted(pb.pending, stats, pb.pending.len() as int);
    let waiting = unsettled(pb.pending, stats, pb.pending.len() as int) + newcomers(
        files,
        known,
        files.len() as int,
    );
    let s = swept_window(
        Sweep { order: pb.order + joined, cache, changed: false },
        pb.cursor,
        found,
        displayed(cache, display_count),
        cache.window.len() as int,
    );
    let order = swept_tail(s.order, found, pb.cursor + s.cache.window.len());
    let changed = s.changed || order.len() != s.order.len() || joined.len() > 0;
    (
        Playback {
            order,
            pending: waiting.filter(|f: Pending| found.contains(f.path)),
            ..pb
        },
        Cache { blocked: s.cache.blocked && !changed, ..s.cache },
        changed,
    )
}

/// Adds the pending files that have stopped changing to the order, and hands
/// back those that have not.
fn promote_pending(
    order: &mut Vec<String>,
    pending: &Vec<PendingFile>,
    stats: &Vec<Option<FileStat>>,
) -> (waiting: Vec<PendingFile>)
    requires
        stats.len() == pending.len(),
    ensures
        names(final(order)@) == names(old(order)@) + promoted(
            pending_view(pending@),
            stats@,
            pending.len() as int,
        ),
        pending_view(waiting@) == unsettled(
            pending_view(pending@),
            stats@,
            pending.len() as int,
        ),
{
    let ghost start = names(order@);
    let ghost files = pending_view(pending@);
    let mut waiting: Vec<PendingFile> = Vec::new();
    let mut i: usize = 0;
    assert(pending_view(waiting@) =~= Seq::empty());
    while i < pending.len()
        invariant
            i <= pending.len(),
            stats.len() == pending.len(),
            files == pending_view(pending@),
            names(order@) =~= start + promoted(files, stats@, i as int),
            pending_view(waiting@) =~= unsettled(files, stats@, i as int),
        decreases pending.len() - i,
    {
        let ghost before = waiting@;
        let file = &pending[i];
        assert(files[i as int] == file@);
        if let Some(stat) = stats[i] {
            if stat.size == file.size && stat.modified == file.modified {
                proof {
                    lemma_names_push(order@, file.path);
                }
                order.push(file.path.clone());
            } else {
                let again = PendingFile {
                    path: file.path.clone(),
                    size: stat.size,
                    modified: stat.modified,
                };
                waiting.push(again);
                assert(pending_view(waiting@) =~= pending_view(before).push(again@));
            }
        }
        i = i + 1;
    }
    waiting
}

/// Adds the scanned files that are not in `known` to the pending ones.
fn add_newcomers(pending: &mut Vec<PendingFile>, files: &Vec<ScannedFile>, known: StringHashSet)
    ensures
        pending_view(final(pending)@) == pending_view(old(pending)@) + newcomers(
            scan_view(files@),
            known@,
            files.len() as int,
        ),
{
    let ghost start = pending_view(pending@);
    let ghost scan = scan_view(files@);
    let ghost first = known@;
    let mut known = known;
    let mut i: usize = 0;
    proof {
        assert(scan_paths(scan).take(0).to_set() =~= Set::empty());
        assert(first =~= first + scan_paths(scan).take(0).to_set());
    }
    while i < files.len()
        invariant
            i <= files.len(),
            scan == scan_view(files@),
            known@ == first + scan_paths(scan).take(i as int).to_set(),
            pending_view(pending@) =~= start + newcomers(scan, first, i as int),
        decreases files.len() - i,
    {
        let ghost before = pending@;
        let file = &files[i];
        proof {
            assert(scan[i as int] == file@);
            assert(scan_paths(scan)[i as int] == file.path@);
            lemma_take_next(scan_paths(scan), i as int);
        }
        let ghost seen = known@;
        if known.insert(file.path.clone()) {
            if let Some(stat) = file.stat {
                let new = PendingFile {
                    path: file.path.clone(),
                    size: stat.size,
                    modified: stat.modified,
                };
                pending.push(new);
                assert(pending_view(pending@) =~= pending_view(before).push(new@));
            }
        }
        proof {
            assert(seen.contains(file.path@) == (first.contains(file.path@) || scan_paths(
                scan,
            ).take(i as int).contains(file.path@)));
            assert(known@ =~= first + scan_paths(scan).take(i + 1).to_set());
        }
        i = i + 1;
    }
}

/// Takes the pictures that are gone out of the part of the window that is not
/// on display. Says whether there were any.
fn sweep_window(
    order: &mut Vec<String>,
    cache: &mut CacheState,
    cursor: usize,
    found: &StringHashSet,
    floor: usize,
) -> (changed: bool)
    requires
        cursor + old(cache)@.window.len() <= usize::MAX,
        floor <= old(cache)@.window.len(),
    ensures
        (Sweep { order: names(final(order)@), cache: final(cache)@, changed }) == swept_window(
            Sweep { order: names(old(order)@), cache: old(cache)@, changed: false },
            cursor as int,
            found@,
            floor as int,
            old(cache)@.window.len() as int,
        ),
        final(cache)@.window.len() <= old(cache)@.window.len(),
{
    let ghost start = Sweep { order: names(order@), cache: cache@, changed: false };
    let mut changed = false;
    let mut k = cache.window.len();
    let ghost n = k;
    while k > floor
        invariant
            floor <= k <= n,
            k <= cache@.window.len() <= n,
            cursor + n <= usize::MAX,
            swept_window(start, cursor as int, found@, floor as int, n as int) == swept_window(
                Sweep { order: names(order@), cache: cache@, changed },
                cursor as int,
                found@,
                floor as int,
                k as int,
            ),
        decreases k,
    {
        k = k - 1;
        let ghost before = Sweep { order: names(order@), cache: cache@, changed };
        let path = cache.window[k].path.clone();
        assert(path@ == before.cache.window[k as int].path);
        if !found.contains(path.as_str()) {
            cache.evict_at(k);
            let index = cursor + k;
            if index < order.len() && order[index] == path {
                proof {
                    lemma_names_remove(order@, index as int);
                }
                order.remove(index);
            } else {
                remove_first(order, &path);
            }
            cache.preload_blocked_by_vram = false;
            changed = true;
            assert(cache@ =~= (Cache { blocked: false, ..before.cache.without(k as int) }));
        }
    }
    changed
}

/// Takes the paths from `from` on that are gone out of the order. Says whether
/// there were any.
fn sweep_tail(order: &mut Vec<String>, found: &StringHashSet, from: usize) -> (changed: bool)
    ensures
        names(final(order)@) == swept_tail(names(old(order)@), found@, from as int),
        changed == (final(order).len() != old(order).len()),
{
    if from >= order.len() {
        return false;
    }
    let ghost start = names(order@);
    let ghost keep = |p: Seq<char>| found@.contains(p);
    let ghost head = start.take(from as int);
    let ghost tail = start.skip(from as int);
    let ghost mut seen: int = 0;
    let mut changed = false;
    let mut i = from;
    proof {
        assert(tail.take(0).filter(keep) =~= Seq::empty()) by {
            reveal(Seq::filter);
        }
        assert(start =~= head + tail.take(0).filter(keep) + tail.skip(0));
    }
    while i < order.len()
        invariant
            from <= i,
            head.len() == from,
            0 <= seen <= tail.len(),
            keep == (|p: Seq<char>| found@.contains(p)),
            i == from + tail.take(seen).filter(keep).len(),
            i <= order.len(),
            names(order@) == head + tail.take(seen).filter(keep) + tail.skip(seen),
            changed == (names(order@).len() != head.len() + tail.len()),
            order.len() <= head.len() + tail.len(),
        decreases tail.len() - seen,
    {
        let ghost kept = tail.take(seen).filter(keep);
        proof {
            assert(order.len() == head.len() + kept.len() + tail.len() - seen);
            assert(seen < tail.len());
            assert(names(order@)[i as int] == tail[seen]);
            lemma_filter_next(tail, keep, seen);
        }
        let ghost before = names(order@);
        if !found.contains(order[i].as_str()) {
            proof {
                lemma_names_remove(order@, i as int);
            }
            order.remove(i);
            changed = true;
            proof {
                assert(before.remove(i as int) =~= head + kept + tail.skip(seen + 1));
            }
        } else {
            i = i + 1;
            proof {
                assert(before =~= head + kept.push(tail[seen]) + tail.skip(seen + 1));
            }
        }
        proof {
            seen = seen + 1;
        }
    }
    proof {
        assert(tail.take(seen) =~= tail);
        assert(names(order@) =~= head + tail.filter(keep));
    }
    changed
}

/// The pending files that were found.
fn keep_found(pending: &Vec<PendingFile>, found: &StringHashSet) -> (kept: Vec<PendingFile>)
    ensures
        pending_view(kept@) == pending_view(pending@).filter(
            |f: Pending| found@.contains(f.path),
        ),
{
    let ghost files = pending_view(pending@);
    let ghost keep = |f: Pending| found@.contains(f.path);
    let mut kept: Vec<PendingFile> = Vec::new();
    let mut i: usize = 0;
    assert(files.take(0).filter(keep) =~= Seq::empty()) by {
        reveal(Seq::filter);
    }
    while i < pending.len()
        invariant
            i <= pending.len(),
            files == pending_view(pending@),
            keep == (|f: Pending| found@.contains(f.path)),
            pending_view(kept@) =~= files.take(i as int).filter(keep),
        decreases pending.len() - i,
    {
        let file = &pending[i];
        let ghost before = kept@;
        proof {
            assert(files[i as int] == file@);
            lemma_filter_next(files, keep, i as int);
        }
        if found.contains(file.path.as_str()) {
            let same = PendingFile {
                path: file.path.clone(),
                size: file.size,
                modified: file.modified,
            };
            kept.push(same);
            assert(pending_view(kept@) =~= pending_view(before).push(same@));
        }
        i = i + 1;
    }
    assert(files.take(i as int) =~= files);
    kept
}

/// The paths of a scan as a set.
fn found_set(files: &Vec<ScannedFile>) -> (found: StringHashSet)
    ensures
        found@ == scan_paths(scan_view(files@)).to_set(),
{
    let ghost paths = scan_paths(scan_view(files@));
    let mut found = StringHashSet::new();
    let mut i: usize = 0;
    assert(found@ =~= paths.take(0).to_set());
    while i < files.len()
        invariant
            i <= files.len(),
            paths == scan_paths(scan_view(files@)),
            found@ == paths.take(i as int).to_set(),
        decreases files.len() - i,
    {
        found.insert(files[i].path.clone());
        proof {
            assert(paths[i as int] == files@[i as int].path@);
            lemma_take_next(paths, i as int);
        }
        i = i + 1;
    }
    assert(paths.take(i as int) =~= paths);
    found
}

/// The paths in the order and the pending ones as a set.
fn known_set(pb: &PlaybackState) -> (known: StringHashSet)
    ensures
        known@ == pb@.order.to_set() + pending_paths(pb@.pending).to_set(),
{
    let ghost paths = pending_paths(pb@.pending);
    let mut known = path_set(&pb.play_order);
    let mut i: usize = 0;
    proof {
        assert(paths.take(0).to_set() =~= Set::empty());
        assert(known@ =~= pb@.order.to_set() + paths.take(0).to_set());
    }
    while i < pb.pending.len()
        invariant
            i <= pb.pending.len(),
            paths == pending_paths(pb@.pending),
            known@ == pb@.order.to_set() + paths.take(i as int).to_set(),
        decreases pb.pending.len() - i,
    {
        let ghost before = known@;
        known.insert(pb.pending[i].path.clone());
        proof {
            assert(paths[i as int] == pb.pending@[i as int].path@);
            lemma_take_next(paths, i as int);
            assert(known@ =~= pb@.order.to_set() + paths.take(i + 1).to_set());
        }
        i = i + 1;
    }
    assert(paths.take(i as int) =~= paths);
    known
}

/// A look at the folder. `files` are the pictures found in it, and
/// `pending_stats` says how each of the pending files is now. Pictures on
/// display stay; elsewhere, pictures that are gone leave. Says whether the play
/// order has changed; where pictures have joined it, the part behind the window
/// is shuffled.
pub fn rescan(
    pb: &mut PlaybackState,
    cache: &mut CacheState,
    files: &Vec<ScannedFile>,
    pending_stats: &Vec<Option<FileStat>>,
    display_count: usize,
) -> (changed: bool)
    requires
        pending_stats.len() == old(pb)@.pending.len(),
        old(pb)@.cursor + old(cache)@.window.len() <= usize::MAX,
    ensures
        ({
            let (next, window, differs) = rescanned(
                old(pb)@,
                old(cache)@,
                scan_view(files@),
                pending_stats@,
                display_count as int,
            );
            let joined = promoted(
                old(pb)@.pending,
                pending_stats@,
                old(pb)@.pending.len() as int,
            );
            let behind = next.cursor + window.window.len();
            &&& changed == differs
            &&& final(cache)@ == window
            &&& final(pb)@ == (Playback { order: final(pb)@.order, ..next })
            &&& if joined.len() == 0 {
                final(pb)@.order == next.order
            } else {
                tail_shuffled(next.order, final(pb)@.order, behind)
            }
        }),
        old(cache)@.covers() ==> final(cache)@.covers(),
{
    let ghost start = pb@;
    let ghost shown = cache@;
    let ghost (next, window, differs) = rescanned(
        start,
        shown,
        scan_view(files@),
        pending_stats@,
        display_count as int,
    );
    let found = found_set(files);
    let known = known_set(pb);
    let before = pb.play_order.len();
    let mut waiting = promote_pending(&mut pb.play_order, &pb.pending, pending_stats);
    let added = pb.play_order.len() > before;
    add_newcomers(&mut waiting, files, known);
    let wanted: usize = if display_count < 1 {
        1
    } else {
        display_count
    };
    let floor: usize = if cache.window.len() < wanted {
        cache.window.len()
    } else {
        wanted
    };
    let cursor = pb.cursor;
    let mut changed = sweep_window(&mut pb.play_order, cache, cursor, &found, floor);
    if sweep_tail(&mut pb.play_order, &found, cursor + cache.window.len()) {
        changed = true;
    }
    if changed {
        cache.preload_blocked_by_vram = false;
    }
    pb.pending = keep_found(&waiting, &found);
    assert(pb@ =~= next);
    if added {
        pb.reshuffle_tail(cursor + cache.window.len());
        cache.preload_blocked_by_vram = false;
        changed = true;
    }
    assert(cache@ =~= window);
    proof {
        lemma_swept_ready(
            Sweep {
                order: start.order + promoted(
                    start.pending,
                    pending_stats@,
                    start.pending.len() as int,
                ),
                cache: shown,
                changed: false,
            },
            start.cursor,
            found@,
            displayed(shown, display_count as int),
            shown.window.len() as int,
        );
    }
    changed
}

/// A sweep takes no decoded picture away.
proof fn lemma_swept_ready(s: Sweep, cursor: int, found: Set<Seq<char>>, floor: int, k: int)
    ensures
        swept_window(s, cursor, found, floor, k).cache.ready == s.cache.ready,
        swept_window(s, cursor, found, floor, k).cache.ready_bytes == s.cache.ready_bytes,
    decreases k,
{
    if k > floor && k > 0 {
        let i = k - 1;
        let path = s.cache.window[i].path;
        let next = if found.contains(path) {
            s
        } else {
            Sweep {
                order: if cursor + i < s.order.len() && s.order[cursor + i] == path {
                    s.order.remove(cursor + i)
                } else {
                    s.order.remove_value(path)
                },
                cache: Cache { blocked: false, ..s.cache.without(i) },
                changed: true,
            }
        };
        lemma_swept_ready(next, cursor, found, floor, i);
    }
}

} // verus!
