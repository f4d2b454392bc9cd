//! Filling the window: results are collected, decoded pictures are placed, and
//! further pictures are asked for.

use crate::cache::{less, slots, Cache, CacheState, CachedImage, Slot};
use crate::decoder::{
    answer_of, Answer, DecodeOutcome, DecodeRequest, DecodeResult, DecoderPool, Outcome, Pool,
    Request,
};
use crate::image_loader::{color_size, same_fingerprint, vram_size, FileFingerprint, Picture};
use crate::paths::{lemma_names_push, names, remove_first};
use crate::playback::{Playback, PlaybackState};
use crate::ready::{lemma_total_insert, lemma_total_remove};
use crate::{
    MAX_DECODE_FAILS, MAX_INFLIGHT, MAX_READY_BUFFER, MAX_RESULTS_PER_FRAME, MAX_UPLOADS_PER_FRAME,
    READAHEAD_DEPTH, VRAM_LIMIT,
};
use vstd::prelude::*;

verus! {

/// A result, and the file as it is now.
pub struct Arrival {
    pub result: DecodeResult,
    pub current: Option<FileFingerprint>,
}

/// What an [`Arrival`] holds.
pub struct Arrived {
    pub path: Seq<char>,
    pub epoch: u64,
    pub asked: Option<FileFingerprint>,
    pub current: Option<FileFingerprint>,
    pub outcome: Outcome,
}

impl View for Arrival {
    type V = Arrived;

    open spec fn view(&self) -> Arrived {
        Arrived {
            path: self.result.path@,
            epoch: self.result.epoch,
            asked: self.result.fingerprint,
            current: self.current,
            outcome: self.result.outcome@,
        }
    }
}

/// What a list of [`Arrival`]s holds.
pub open spec fn arrived(arrivals: Seq<Arrival>) -> Seq<Arrived> {
    arrivals.map_values(|a: Arrival| a@)
}

/// A state in the course of collecting results.
#[verifier::ext_equal]
pub struct Frame {
    pub pb: Playback,
    pub cache: Cache,
    /// The oversized pictures found so far.
    pub oversized: Seq<Seq<char>>,
    /// The play order has changed.
    pub changed: bool,
}

/// How often in a row a path failed to decode.
pub open spec fn fail_count(fails: Map<Seq<char>, u32>, path: Seq<char>) -> int {
    if fails.contains_key(path) {
        fails[path] as int
    } else {
        0
    }
}

/// One more failure of a path: it goes to the end of the order, or leaves it
/// when it has failed too often.
pub open spec fn failed(pb: Playback, path: Seq<char>) -> Playback {
    let count = fail_count(pb.fails, path) + 1;
    let rest = pb.order.remove_value(path);
    Playback {
        order: if count < MAX_DECODE_FAILS {
            rest.push(path)
        } else {
            rest
        },
        fails: pb.fails.insert(path, count as u32),
        ..pb
    }
}

/// The picture of a path is ready, in place of an earlier one.
pub open spec fn with_ready(cache: Cache, path: Seq<char>, picture: Picture) -> Cache {
    Cache {
        ready: cache.ready.insert(path, picture),
        ready_bytes: less(
            cache.ready_bytes,
            if cache.ready.contains_key(path) {
                cache.ready[path].bytes
            } else {
                0
            },
        ) + picture.bytes,
        ..cache
    }
}

/// One result is collected. A result of another epoch is ignored. A result for
/// a file that has changed since is dropped, so that the path is asked for
/// again.
pub open spec fn collected(f: Frame, a: Arrived) -> Frame {
    let cache = Cache { inflight: f.cache.inflight.remove(a.path), ..f.cache };
    let rest = f.pb.order.remove_value(a.path);
    if a.epoch != f.cache.epoch {
        f
    } else if a.asked != a.current {
        Frame { cache, ..f }
    } else {
        match a.outcome {
            Outcome::Decoded(picture) => Frame {
                cache: with_ready(cache, a.path, picture),
                pb: Playback { fails: f.pb.fails.remove(a.path), ..f.pb },
                ..f
            },
            Outcome::Failed => Frame { cache, pb: failed(f.pb, a.path), changed: true, ..f },
            Outcome::Missing => Frame {
                cache,
                pb: Playback { order: rest, ..f.pb },
                changed: true,
                ..f
            },
            Outcome::Oversized { .. } => Frame {
                cache: Cache { ready: cache.ready.remove(a.path), ..cache },
                pb: Playback { order: rest, ..f.pb },
                oversized: f.oversized.push(a.path),
                changed: true,
            },
        }
    }
}

/// The first `n` results are collected.
pub open spec fn collected_all(f: Frame, arrivals: Seq<Arrived>, n: int) -> Frame
    decreases n,
{
    if n <= 0 {
        f
    } else {
        collected(collected_all(f, arrivals, n - 1), arrivals[n - 1])
    }
}

/// Bytes of the decoded pictures among the first `n` results.
pub open spec fn arrived_bytes(arrivals: Seq<Arrived>, n: int) -> nat
    decreases n,
{
    if n <= 0 {
        0
    } else {
        arrived_bytes(arrivals, n - 1) + match arrivals[n - 1].outcome {
            Outcome::Decoded(picture) => picture.bytes,
            _ => 0,
        }
    }
}

/// The picture of a path gets the next place in the window.
pub open spec fn with_placed(cache: Cache, path: Seq<char>) -> Cache {
    let picture = cache.ready[path];
    Cache {
        window: cache.window.push(
            Slot {
                path,
                pixels: Some(picture.color),
                texture: None,
                width: picture.width,
                height: picture.height,
                vram: picture.bytes,
            },
        ),
        vram: cache.vram + picture.bytes,
        ready: cache.ready.remove(path),
        ready_bytes: less(cache.ready_bytes, picture.bytes),
        ..cache
    }
}

/// Decoded pictures get places, in the order of play and without a gap. Places
/// on display are filled whatever it takes; ahead of it, only
/// [`MAX_UPLOADS_PER_FRAME`] at a time and as far as texture memory goes.
pub open spec fn placed(pb: Playback, cache: Cache, display_count: int, ahead: int) -> Cache
    decreases pb.order.len() - pb.cursor - cache.window.len(),
{
    let next = pb.cursor + cache.window.len();
    let path = pb.order[next];
    let on_display = cache.window.len() < display_count;
    if !(0 <= next < pb.order.len()) || !cache.ready.contains_key(path) {
        cache
    } else if !on_display && cache.vram + cache.ready[path].bytes > VRAM_LIMIT {
        Cache { blocked: true, ..cache }
    } else if !on_display && ahead >= MAX_UPLOADS_PER_FRAME {
        cache
    } else {
        placed(
            pb,
            with_placed(cache, path),
            display_count,
            if on_display {
                ahead
            } else {
                ahead + 1
            },
        )
    }
}

/// A picture to ask for.
pub struct Wanted {
    pub path: String,
    /// It is for a place on display.
    pub is_display: bool,
    /// The file as it is now.
    pub fingerprint: Option<FileFingerprint>,
}

/// What a [`Wanted`] holds.
pub struct Want {
    pub path: Seq<char>,
    pub display: bool,
    pub fingerprint: Option<FileFingerprint>,
}

impl View for Wanted {
    type V = Want;

    open spec fn view(&self) -> Want {
        Want { path: self.path@, display: self.is_display, fingerprint: self.fingerprint }
    }
}

/// What a list of [`Wanted`]s holds.
pub open spec fn wants(wanted: Seq<Wanted>) -> Seq<Want> {
    wanted.map_values(|w: Wanted| w@)
}

/// How many places from the cursor on are looked at when pictures are asked
/// for.
pub open spec fn reach(display_count: int) -> int {
    if READAHEAD_DEPTH < display_count {
        display_count
    } else {
        READAHEAD_DEPTH as int
    }
}

/// The pictures to ask for from place `pos` on: those that are neither decoded
/// nor asked for.
pub open spec fn wanted_from(pb: Playback, cache: Cache, display_count: int, pos: int) -> Seq<Want>
    decreases reach(display_count) - pos,
{
    let path = pb.order[pb.cursor + pos];
    if pos >= reach(display_count) || pb.cursor + pos >= pb.order.len() {
        Seq::empty()
    } else if cache.ready.contains_key(path) || cache.inflight.contains(path) {
        wanted_from(pb, cache, display_count, pos + 1)
    } else {
        seq![Want { path, display: pos < display_count, fingerprint: None }] + wanted_from(
            pb,
            cache,
            display_count,
            pos + 1,
        )
    }
}

/// What the machine's integers must hold for a refill: the bytes of all
/// pictures together, the places looked at, and one more failure for each
/// result.
pub open spec fn refill_fits(
    pb: Playback,
    cache: Cache,
    arrivals: Seq<Arrived>,
    display_count: int,
) -> bool {
    &&& cache.vram + cache.ready_bytes + arrived_bytes(arrivals, arrivals.len() as int)
        <= usize::MAX
    &&& pb.cursor + cache.window.len() <= usize::MAX
    &&& pb.cursor + reach(display_count) <= usize::MAX
    &&& forall|i: int|
        0 <= i < arrivals.len() ==> fail_count(pb.fails, (#[trigger] arrivals[i]).path)
            + arrivals.len() <= u32::MAX
}

/// The state after results have been collected and pictures have been placed;
/// a change of the play order starts a new epoch.
pub open spec fn refilled(f: Frame, display_count: int) -> Cache {
    let cache = placed(f.pb, f.cache, display_count, 0);
    if f.changed {
        Cache { blocked: false, ..cache.bumped() }
    } else {
        cache
    }
}

/// Takes the first occurrence of a path out of the play order, and says
/// whether there was one.
pub fn remove_path(pb: &mut PlaybackState, path: &String) -> (removed: bool)
    ensures
        final(pb)@ == (Playback { order: old(pb)@.order.remove_value(path@), ..old(pb)@ }),
        removed == old(pb)@.order.contains(path@),
{
    let removed = remove_first(&mut pb.play_order, path);
    assert(pb@ =~= (Playback { order: old(pb)@.order.remove_value(path@), ..old(pb)@ }));
    removed
}

/// Notes a failed decode.
pub fn handle_decode_fail(pb: &mut PlaybackState, path: &String)
    requires
        fail_count(old(pb)@.fails, path@) < u32::MAX,
    ensures
        final(pb)@ == failed(old(pb)@, path@),
{
    let count: u32 = match pb.fail_counts.get(path.as_str()) {
        Some(n) => *n + 1,
        None => 1,
    };
    pb.fail_counts.insert(path.clone(), count);
    remove_path(pb, path);
    if count < MAX_DECODE_FAILS {
        proof {
            lemma_names_push(pb.play_order@, *path);
        }
        pb.play_order.push(path.clone());
    }
    assert(pb@ =~= failed(old(pb)@, path@));
}

proof fn lemma_covers_after_ready(cache: Cache, path: Seq<char>, picture: Picture)
    requires
        cache.covers(),
    ensures
        with_ready(cache, path, picture).covers(),
        with_ready(cache, path, picture).ready_bytes <= cache.ready_bytes + picture.bytes,
{
    lemma_total_insert(cache.ready, path, picture);
    if cache.ready.contains_key(path) {
        lemma_total_remove(cache.ready, path);
    } else {
        assert(cache.ready.remove(path) =~= cache.ready);
    }
}

/// Collects one result. Says whether the play order has changed.
pub fn collect_arrival(
    pb: &mut PlaybackState,
    cache: &mut CacheState,
    arrival: Arrival,
    oversized_out: &mut Vec<String>,
) -> (changed: bool)
    requires
        old(cache)@.covers(),
        old(cache)@.ready_bytes + arrived_bytes(seq![arrival@], 1) <= usize::MAX,
        fail_count(old(pb)@.fails, arrival@.path) < u32::MAX,
    ensures
        (Frame {
            pb: final(pb)@,
            cache: final(cache)@,
            oversized: names(final(oversized_out)@),
            changed,
        }) == collected(
            Frame {
                pb: old(pb)@,
                cache: old(cache)@,
                oversized: names(old(oversized_out)@),
                changed: false,
            },
            arrival@,
        ),
        final(cache)@.covers(),
{
    let ghost f = Frame {
        pb: pb@,
        cache: cache@,
        oversized: names(oversized_out@),
        changed: false,
    };
    let ghost a = arrival@;
    let Arrival { result, current } = arrival;
    if result.epoch != cache.epoch {
        return false;
    }
    cache.inflight.remove(result.path.as_str());
    let ghost unasked = Cache { inflight: f.cache.inflight.remove(a.path), ..f.cache };
    assert(cache@ =~= unasked);
    if !same_fingerprint(&result.fingerprint, &current) {
        return false;
    }
    match result.outcome {
        DecodeOutcome::Decoded(image) => {
            let bytes = image.rgba_bytes();
            proof {
                assert(arrived_bytes(seq![a], 1) == arrived_bytes(seq![a], 0) + image@.bytes) by {
                    reveal_with_fuel(arrived_bytes, 2);
                }
                lemma_covers_after_ready(unasked, a.path, image@);
            }
            if let Some(earlier) = cache.ready.insert(result.path.clone(), image) {
                cache.ready_bytes = cache.ready_bytes.saturating_sub(earlier.rgba_bytes());
            }
            cache.ready_bytes = cache.ready_bytes + bytes;
            pb.fail_counts.remove(result.path.as_str());
            assert(cache@ =~= with_ready(unasked, a.path, image@));
            assert(pb@ =~= (Playback { fails: f.pb.fails.remove(a.path), ..f.pb }));
            false
        },
        DecodeOutcome::Failed => {
            handle_decode_fail(pb, &result.path);
            true
        },
        DecodeOutcome::Missing => {
            remove_path(pb, &result.path);
            true
        },
        DecodeOutcome::Oversized { w, h } => {
            proof {
                if unasked.ready.contains_key(a.path) {
                    lemma_total_remove(unasked.ready, a.path);
                } else {
                    assert(unasked.ready.remove(a.path) =~= unasked.ready);
                }
                lemma_names_push(oversized_out@, result.path);
            }
            cache.ready.remove(&result.path);
            remove_path(pb, &result.path);
            oversized_out.push(result.path.clone());
            assert(cache@ =~= (Cache { ready: unasked.ready.remove(a.path), ..unasked }));
            true
        },
    }
}

proof fn lemma_covers_after_place(cache: Cache, path: Seq<char>)
    requires
        cache.covers(),
        cache.ready.contains_key(path),
    ensures
        with_placed(cache, path).covers(),
        cache.ready[path].bytes <= cache.ready_bytes,
        with_placed(cache, path).vram + with_placed(cache, path).ready_bytes == cache.vram
            + cache.ready_bytes,
{
    lemma_total_remove(cache.ready, path);
}

/// The slots from the `from`th on have the width and the height of the pixels
/// that they hold.
pub open spec fn drawn_at_size(window: Seq<CachedImage>, from: int) -> bool {
    forall|i: int|
        from <= i < window.len() ==> {
            let slot = #[trigger] window[i];
            &&& slot.pixels is Some
            &&& color_size(slot.pixels->0) == (slot.width as nat, slot.height as nat)
        }
}

/// Gives places to decoded pictures.
pub fn place_ready(pb: &PlaybackState, cache: &mut CacheState, display_count: usize)
    requires
        old(cache)@.covers(),
        old(cache)@.vram + old(cache)@.ready_bytes <= usize::MAX,
        pb@.cursor + old(cache)@.window.len() <= usize::MAX,
    ensures
        final(cache)@ == placed(pb@, old(cache)@, display_count as int, 0),
        final(cache)@.covers(),
        drawn_at_size(final(cache).window@, old(cache).window.len() as int),
{
    let ghost start = cache@;
    let mut ahead: usize = 0;
    loop
        invariant
            start == old(cache)@,
            cache@.covers(),
            cache@.vram + cache@.ready_bytes <= usize::MAX,
            pb@.cursor + cache@.window.len() <= usize::MAX,
            ahead <= MAX_UPLOADS_PER_FRAME,
            old(cache).window.len() <= cache.window.len(),
            drawn_at_size(cache.window@, old(cache).window.len() as int),
            placed(pb@, start, display_count as int, 0) == placed(
                pb@,
                cache@,
                display_count as int,
                ahead as int,
            ),
        decreases pb@.order.len() - pb@.cursor - cache@.window.len(),
    {
        let ghost before = cache@;
        let next = pb.cursor + cache.window.len();
        if next >= pb.play_order.len() {
            return;
        }
        let path = pb.play_order[next].clone();
        assert(path@ == pb@.order[next as int]);
        let vram = match cache.ready.get(&path) {
            Some(image) => vram_size(image.width(), image.height()),
            None => return,
        };
        proof {
            lemma_covers_after_place(before, path@);
        }
        let on_display = cache.window.len() < display_count;
        if !on_display {
            if cache.current_vram + vram > VRAM_LIMIT {
                cache.preload_blocked_by_vram = true;
                assert(cache@ =~= (Cache { blocked: true, ..before }));
                return;
            }
            if ahead >= MAX_UPLOADS_PER_FRAME {
                return;
            }
        }
        if let Some(image) = cache.ready.remove(&path) {
            let width = image.width();
            let height = image.height();
            cache.ready_bytes = cache.ready_bytes.saturating_sub(image.rgba_bytes());
            let ghost shown = cache.window@;
            let slot = CachedImage {
                path,
                pixels: Some(image.into_color()),
                texture: None,
                width,
                height,
                vram_size: vram,
            };
            proof {
                assert(slots(shown.push(slot)) =~= slots(shown).push(slot@));
            }
            cache.window.push_back(slot);
            cache.current_vram = cache.current_vram + vram;
            assert(cache@ =~= with_placed(before, path@));
        }
        if !on_display {
            ahead = ahead + 1;
        }
    }
}

/// The pictures to ask for, those on display first.
pub fn plan_requests(pb: &PlaybackState, cache: &CacheState, display_count: usize) -> (wanted: Vec<
    Wanted,
>)
    requires
        pb@.cursor + reach(display_count as int) <= usize::MAX,
    ensures
        wants(wanted@) == wanted_from(
            pb@,
            cache@,
            display_count as int,
            cache@.window.len() as int,
        ),
{
    let mut wanted: Vec<Wanted> = Vec::new();
    let limit: usize = if READAHEAD_DEPTH < display_count {
        display_count
    } else {
        READAHEAD_DEPTH
    };
    let mut pos = cache.window.len();
    let ghost all = wanted_from(pb@, cache@, display_count as int, pos as int);
    assert(wants(wanted@) =~= Seq::empty());
    while pos < limit && pb.cursor + pos < pb.play_order.len()
        invariant
            limit == reach(display_count as int),
            pb@.cursor + limit <= usize::MAX,
            all =~= wants(wanted@) + wanted_from(pb@, cache@, display_count as int, pos as int),
        decreases limit - pos,
    {
        let path = pb.play_order[pb.cursor + pos].clone();
        assert(path@ == pb@.order[pb@.cursor + pos]);
        if !cache.ready.contains_key(&path) && !cache.inflight.contains(path.as_str()) {
            let ghost before = wanted@;
            let want = Wanted { path, is_display: pos < display_count, fingerprint: None };
            wanted.push(want);
            assert(wants(wanted@) =~= wants(before).push(want@));
        }
        pos = pos + 1;
    }
    wanted
}

/// Fills the window: collects the results that have arrived, gives places to
/// decoded pictures, and, where the play order has changed, starts a new
/// epoch. Oversized pictures are added to `oversized_out`. Says whether the
/// play order has changed, and which pictures to ask for next.
pub fn refill_window(
    pb: &mut PlaybackState,
    cache: &mut CacheState,
    decoder: &mut DecoderPool,
    display_count: usize,
    arrivals: Vec<Arrival>,
    oversized_out: &mut Vec<String>,
) -> (refill: (bool, Vec<Wanted>))
    requires
        old(cache)@.covers(),
        refill_fits(old(pb)@, old(cache)@, arrived(arrivals@), display_count as int),
    ensures
        ({
            let f = collected_all(
                Frame {
                    pb: old(pb)@,
                    cache: old(cache)@,
                    oversized: names(old(oversized_out)@),
                    changed: false,
                },
                arrived(arrivals@),
                arrivals.len() as int,
            );
            &&& final(pb)@ == f.pb
            &&& final(cache)@ == refilled(f, display_count as int)
            &&& names(final(oversized_out)@) == f.oversized
            &&& refill.0 == f.changed
            &&& final(decoder)@ == if f.changed {
                old(decoder)@.with_epoch(final(cache)@.epoch)
            } else {
                old(decoder)@
            }
        }),
        final(cache)@.covers(),
        drawn_at_size(final(cache).window@, old(cache).window.len() as int),
        wants(refill.1@) == wanted_from(
            final(pb)@,
            final(cache)@,
            display_count as int,
            final(cache)@.window.len() as int,
        ),
{
    let ghost all = arrived(arrivals@);
    let ghost start = Frame {
        pb: pb@,
        cache: cache@,
        oversized: names(oversized_out@),
        changed: false,
    };
    let count = arrivals.len();
    let mut arrivals = arrivals;
    let mut changed = false;
    let mut done: usize = 0;
    proof {
        assert(arrivals@.len() == all.len());
        assert(arrived(arrivals@) =~= all.skip(0));
    }
    while done < count
        invariant
            done <= count,
            count == all.len(),
            arrivals.len() == count - done,
            arrived(arrivals@) =~= all.skip(done as int),
            refill_fits(start.pb, start.cache, all, display_count as int),
            cache@.covers(),
            cache@.vram == start.cache.vram,
            cache@.window == start.cache.window,
            pb@.cursor == start.pb.cursor,
            cache@.ready_bytes <= start.cache.ready_bytes + arrived_bytes(all, done as int),
            forall|p: Seq<char>|
                #[trigger] fail_count(pb@.fails, p) <= fail_count(start.pb.fails, p) + done,
            (Frame { pb: pb@, cache: cache@, oversized: names(oversized_out@), changed })
                == collected_all(start, all, done as int),
        decreases count - done,
    {
        let ghost before = Frame {
            pb: pb@,
            cache: cache@,
            oversized: names(oversized_out@),
            changed: false,
        };
        let ghost a = all[done as int];
        let ghost rest = arrivals@;
        let arrival = arrivals.remove(0);
        proof {
            assert(arrived(rest)[0] == a);
            assert(arrived(arrivals@) =~= arrived(rest).skip(1));
            assert(all.skip(done as int).skip(1) =~= all.skip(done + 1));
            assert(arrived_bytes(seq![a], 1) == match a.outcome {
                Outcome::Decoded(picture) => picture.bytes,
                _ => 0,
            }) by {
                reveal_with_fuel(arrived_bytes, 2);
            }
            lemma_arrived_bytes_grow(all, done + 1, count as int);
        }
        let now = collect_arrival(pb, cache, arrival, oversized_out);
        proof {
            let after = collected(before, a);
            assert(pb@ == after.pb && cache@ == after.cache);
            assert forall|p: Seq<char>|
                #[trigger] fail_count(after.pb.fails, p) <= fail_count(start.pb.fails, p) + done
                    + 1 by {
                assert(fail_count(before.pb.fails, p) <= fail_count(start.pb.fails, p) + done);
            }
            if before.cache.covers() && a.outcome is Decoded {
                let cache = Cache {
                    inflight: before.cache.inflight.remove(a.path),
                    ..before.cache
                };
                lemma_covers_after_ready(cache, a.path, a.outcome->Decoded_0);
            }
        }
        changed = changed || now;
        done = done + 1;
    }
    proof {
        lemma_arrived_bytes_grow(all, done as int, count as int);
    }
    place_ready(pb, cache, display_count);
    if changed {
        let ghost full = cache@;
        cache.bump_epoch(decoder);
        cache.preload_blocked_by_vram = false;
        assert(cache@ =~= (Cache { blocked: false, ..full.bumped() }));
        assert(cache@.covers());
    }
    let wanted = plan_requests(pb, cache, display_count);
    (changed, wanted)
}

proof fn lemma_arrived_bytes_grow(arrivals: Seq<Arrived>, m: int, n: int)
    requires
        m <= n,
    ensures
        arrived_bytes(arrivals, m) <= arrived_bytes(arrivals, n),
    decreases n - m,
{
    if m < n {
        lemma_arrived_bytes_grow(arrivals, m, n - 1);
    }
}

/// What comes when `results` are got: one after the other is asked for, until
/// none has come or there are [`MAX_RESULTS_PER_FRAME`].
pub open spec fn receipts(results: Seq<DecodeResult>) -> Seq<Option<Answer>> {
    let came = results.map_values(|r: DecodeResult| Some(r@));
    if results.len() < MAX_RESULTS_PER_FRAME {
        came.push(None)
    } else {
        came
    }
}

/// Takes the results that have arrived, [`MAX_RESULTS_PER_FRAME`] at most.
/// Every result that came out of the queue is handed on, in the order in which
/// they came.
pub fn receive_results(decoder: &mut DecoderPool) -> (results: Vec<DecodeResult>)
    ensures
        results.len() <= MAX_RESULTS_PER_FRAME,
        final(decoder)@ == old(decoder)@.with_received(receipts(results@)),
        !old(decoder)@.open ==> results.len() == 0,
{
    let ghost start = decoder@;
    let mut results: Vec<DecodeResult> = Vec::new();
    proof {
        assert(results@.map_values(|r: DecodeResult| Some(r@)) =~= Seq::empty());
        assert(start.results.received + Seq::empty() =~= start.results.received);
        assert(decoder@ =~= start.with_received(Seq::empty()));
    }
    while results.len() < MAX_RESULTS_PER_FRAME
        invariant
            results.len() <= MAX_RESULTS_PER_FRAME,
            start == old(decoder)@,
            decoder@ == start.with_received(results@.map_values(|r: DecodeResult| Some(r@))),
            !start.open ==> results.len() == 0,
        decreases MAX_RESULTS_PER_FRAME - results.len(),
    {
        let ghost before = results@.map_values(|r: DecodeResult| Some(r@));
        let result = decoder.try_recv();
        proof {
            assert(start.results.received + before + seq![answer_of(result)]
                =~= start.results.received + before.push(answer_of(result)));
        }
        match result {
            Some(result) => {
                results.push(result);
                assert(results@.map_values(|r: DecodeResult| Some(r@)) =~= before.push(
                    Some(result@),
                ));
            },
            None => {
                return results;
            },
        }
    }
    results
}

/// Whether the machine's integers hold what a refill adds up.
pub fn can_refill(
    pb: &PlaybackState,
    cache: &CacheState,
    display_count: usize,
    arrivals: &Vec<Arrival>,
) -> (fits: bool)
    ensures
        fits == refill_fits(pb@, cache@, arrived(arrivals@), display_count as int),
{
    let ghost all = arrived(arrivals@);
    let limit: usize = if READAHEAD_DEPTH < display_count {
        display_count
    } else {
        READAHEAD_DEPTH
    };
    if cache.window.len() > usize::MAX - pb.cursor || limit > usize::MAX - pb.cursor {
        return false;
    }
    if cache.ready_bytes > usize::MAX - cache.current_vram {
        proof {
            lemma_arrived_bytes_grow(all, 0, all.len() as int);
        }
        return false;
    }
    let mut sum: usize = cache.current_vram + cache.ready_bytes;
    let mut i: usize = 0;
    while i < arrivals.len()
        invariant
            i <= arrivals.len(),
            all == arrived(arrivals@),
            sum == cache@.vram + cache@.ready_bytes + arrived_bytes(all, i as int),
            forall|j: int|
                0 <= j < i ==> fail_count(pb@.fails, (#[trigger] all[j]).path) + all.len()
                    <= u32::MAX,
        decreases arrivals.len() - i,
    {
        assert(all[i as int] == arrivals@[i as int]@);
        if let DecodeOutcome::Decoded(image) = &arrivals[i].result.outcome {
            let bytes = image.rgba_bytes();
            if bytes > usize::MAX - sum {
                proof {
                    lemma_arrived_bytes_grow(all, i + 1, all.len() as int);
                }
                return false;
            }
            sum = sum + bytes;
        }
        let count: u32 = match pb.fail_counts.get(arrivals[i].result.path.as_str()) {
            Some(n) => *n,
            None => 0,
        };
        if arrivals.len() > (u32::MAX - count) as usize {
            return false;
        }
        i = i + 1;
    }
    true
}

/// What to do with a picture to ask for.
#[derive(Debug, PartialEq, Eq, Structural)]
pub enum Ask {
    /// It is decoded, or has been asked for.
    Skip,
    /// Enough has been asked for.
    Stop,
    Send,
}

/// What to do with a picture to ask for: a picture on display is always asked
/// for; one ahead of it only while there is room.
pub open spec fn ask(cache: Cache, want: Want) -> Ask {
    if cache.ready.contains_key(want.path) || cache.inflight.contains(want.path) {
        Ask::Skip
    } else if !want.display && (cache.inflight.len() >= MAX_INFLIGHT || cache.ready.len()
        >= MAX_READY_BUFFER || cache.blocked) {
        Ask::Stop
    } else {
        Ask::Send
    }
}

/// The request for a picture.
pub open spec fn request_for(cache: Cache, want: Want) -> Request {
    Request { path: want.path, epoch: cache.epoch, fingerprint: want.fingerprint }
}

/// The request for a picture is offered to the queue that it is for.
pub open spec fn offer(pool: Pool, cache: Cache, want: Want, taken: bool) -> Pool {
    if want.display {
        pool.with_display(request_for(cache, want), taken)
    } else {
        pool.with_prefetch(request_for(cache, want), taken)
    }
}

/// A state in the course of asking for pictures.
#[verifier::ext_equal]
pub struct Asking {
    pub cache: Cache,
    pub pool: Pool,
    pub stopped: bool,
}

/// One picture is asked for, where `taken` says whether the queue would take
/// the request. When the queue for pictures on display is full, the rest waits
/// for the next frame.
pub open spec fn asked(s: Asking, want: Want, taken: bool) -> Asking {
    if s.stopped {
        s
    } else {
        match ask(s.cache, want) {
            Ask::Skip => s,
            Ask::Stop => Asking { stopped: true, ..s },
            Ask::Send => Asking {
                cache: if taken {
                    Cache { inflight: s.cache.inflight.insert(want.path), ..s.cache }
                } else {
                    s.cache
                },
                pool: offer(s.pool, s.cache, want, taken),
                stopped: want.display && !taken,
            },
        }
    }
}

/// The first `n` pictures are asked for.
pub open spec fn asked_all(s: Asking, wanted: Seq<Want>, taken: Seq<bool>, n: int) -> Asking
    decreases n,
{
    if n <= 0 {
        s
    } else {
        asked(asked_all(s, wanted, taken, n - 1), wanted[n - 1], taken[n - 1])
    }
}

/// Decides whether a picture is asked for.
pub fn decide_ask(cache: &CacheState, want: &Wanted) -> (decision: Ask)
    ensures
        decision == ask(cache@, want@),
{
    if cache.ready.contains_key(&want.path) || cache.inflight.contains(want.path.as_str()) {
        return Ask::Skip;
    }
    if !want.is_display {
        if cache.inflight.len() >= MAX_INFLIGHT {
            return Ask::Stop;
        }
        if cache.ready.len() >= MAX_READY_BUFFER {
            return Ask::Stop;
        }
        if cache.preload_blocked_by_vram {
            return Ask::Stop;
        }
    }
    Ask::Send
}

/// Notes whether a request was taken. Says whether to go on with the next.
pub fn note_request(cache: &mut CacheState, path: String, is_display: bool, taken: bool) -> (go_on:
    bool)
    ensures
        final(cache)@ == if taken {
            Cache { inflight: old(cache)@.inflight.insert(path@), ..old(cache)@ }
        } else {
            old(cache)@
        },
        go_on == (taken || !is_display),
{
    if taken {
        cache.inflight.insert(path);
        assert(cache@ =~= (Cache { inflight: old(cache)@.inflight.insert(path@), ..old(cache)@ }));
    }
    taken || !is_display
}

/// Asks for pictures. Which requests are taken is up to the queues.
pub fn issue_requests(cache: &mut CacheState, decoder: &mut DecoderPool, wanted: Vec<Wanted>)
    ensures
        exists|taken: Seq<bool>|
            {
                let s = #[trigger] asked_all(
                    Asking {
                        cache: old(cache)@,
                        pool: old(decoder)@,
                        stopped: false,
                    },
                    wants(wanted@),
                    taken,
                    wanted.len() as int,
                );
                &&& final(cache)@ == s.cache
                &&& final(decoder)@ == s.pool
                &&& !old(decoder)@.open ==> forall|i: int|
                    0 <= i < taken.len() ==> !taken[i]
            },
        old(cache)@.covers() ==> final(cache)@.covers(),
{
    let ghost all = wants(wanted@);
    let ghost start = Asking { cache: cache@, pool: decoder@, stopped: false };
    let ghost mut taken: Seq<bool> = Seq::empty();
    let count = wanted.len();
    let mut wanted = wanted;
    let mut go_on = true;
    let mut done: usize = 0;
    proof {
        assert(wants(wanted@) =~= all.skip(0));
    }
    while done < count
        invariant
            done <= count,
            count == all.len(),
            taken.len() == done,
            wanted.len() == count - done,
            wants(wanted@) =~= all.skip(done as int),
            decoder@.open == old(decoder)@.open,
            !old(decoder)@.open ==> forall|i: int| 0 <= i < taken.len() ==> !taken[i],
            (Asking { cache: cache@, pool: decoder@, stopped: !go_on }) == asked_all(
                start,
                all,
                taken,
                done as int,
            ),
        decreases count - done,
    {
        let ghost rest = wanted@;
        let ghost before = taken;
        let want = wanted.remove(0);
        proof {
            assert(wants(rest)[0] == all[done as int]);
            assert(want@ == all[done as int]);
            assert(wants(wanted@) =~= wants(rest).skip(1));
            assert(all.skip(done as int).skip(1) =~= all.skip(done + 1));
        }
        let mut accepted = false;
        if go_on {
            match decide_ask(cache, &want) {
                Ask::Skip => {},
                Ask::Stop => {
                    go_on = false;
                },
                Ask::Send => {
                    let Wanted { path, is_display, fingerprint } = want;
                    let request = DecodeRequest {
                        path: path.clone(),
                        epoch: cache.epoch,
                        fingerprint,
                    };
                    accepted = if is_display {
                        decoder.request_display(request).is_ok()
                    } else {
                        decoder.request_prefetch(request).is_ok()
                    };
                    go_on = note_request(cache, path, is_display, accepted);
                },
            }
        }
        proof {
            taken = taken.push(accepted);
            lemma_asked_all_prefix(start, all, before, taken, done as int);
        }
        done = done + 1;
    }
    proof {
        lemma_asked_ready(start, all, taken, count as int);
    }
}

/// Asking takes no decoded picture away.
proof fn lemma_asked_ready(s: Asking, wanted: Seq<Want>, taken: Seq<bool>, n: int)
    ensures
        asked_all(s, wanted, taken, n).cache.ready == s.cache.ready,
        asked_all(s, wanted, taken, n).cache.ready_bytes == s.cache.ready_bytes,
    decreases n,
{
    if n > 0 {
        lemma_asked_ready(s, wanted, taken, n - 1);
    }
}

/// Only the answers to the first `n` requests matter for them.
proof fn lemma_asked_all_prefix(s: Asking, wanted: Seq<Want>, a: Seq<bool>, b: Seq<bool>, n: int)
    requires
        n <= a.len(),
        n <= b.len(),
        forall|i: int| 0 <= i < n ==> a[i] == b[i],
    ensures
        asked_all(s, wanted, a, n) == asked_all(s, wanted, b, n),
    decreases n,
{
    if n > 0 {
        lemma_asked_all_prefix(s, wanted, a, b, n - 1);
    }
}

/// A result of another epoch changes nothing.
pub proof fn law_stale_result_is_ignored(f: Frame, a: Arrived)
    requires
        a.epoch != f.cache.epoch,
    ensures
        collected(f, a) == f,
{
}

/// A result for a file that has changed since it was asked for is not shown:
/// the picture is only no longer waited for, and can be asked for again.
pub proof fn law_outdated_result_is_dropped(f: Frame, a: Arrived)
    requires
        a.epoch == f.cache.epoch,
        a.asked != a.current,
    ensures
        collected(f, a).pb == f.pb,
        collected(f, a).changed == f.changed,
        collected(f, a).oversized == f.oversized,
        collected(f, a).cache == (Cache {
            inflight: f.cache.inflight.remove(a.path),
            ..f.cache
        }),
{
}

/// A picture that fails to decode is tried again at the end of the order, until
/// it has failed [`MAX_DECODE_FAILS`] times in a row; then it leaves the order.
pub proof fn law_failing_picture_leaves(pb: Playback, path: Seq<char>)
    requires
        pb.order.no_duplicates(),
        fail_count(pb.fails, path) < u32::MAX,
    ensures
        fail_count(failed(pb, path).fails, path) == fail_count(pb.fails, path) + 1,
        failed(pb, path).order.contains(path) <==> fail_count(pb.fails, path) + 1
            < MAX_DECODE_FAILS,
{
    let rest = pb.order.remove_value(path);
    pb.order.index_of_first_ensures(path);
    assert(!rest.contains(path)) by {
        if rest.contains(path) {
            let k = choose|k: int| 0 <= k < rest.len() && rest[k] == path;
            match pb.order.index_of_first(path) {
                Some(i) => {
                    let j = if k < i {
                        k
                    } else {
                        k + 1
                    };
                    assert(pb.order[j] == path && pb.order[i] == path);
                },
                None => {
                    assert(pb.order.contains(path));
                },
            }
        }
    }
    assert(rest.push(path).last() == path);
}

/// Pictures get places ahead of the display only as far as texture memory goes,
/// and only [`MAX_UPLOADS_PER_FRAME`] at a time.
pub proof fn law_preload_is_bounded(pb: Playback, cache: Cache, display_count: int, ahead: int)
    requires
        0 <= display_count,
        0 <= ahead <= MAX_UPLOADS_PER_FRAME,
    ensures
        ({
            let next = placed(pb, cache, display_count, ahead);
            let shown = if cache.window.len() < display_count {
                display_count
            } else {
                cache.window.len() as int
            };
            &&& next.window.len() > shown ==> next.vram <= VRAM_LIMIT
            &&& next.window.len() <= shown + MAX_UPLOADS_PER_FRAME - ahead
            &&& cache.window.len() <= next.window.len()
            &&& next.window.take(cache.window.len() as int) == cache.window
        }),
    decreases pb.order.len() - pb.cursor - cache.window.len(),
{
    let next = pb.cursor + cache.window.len();
    let path = pb.order[next];
    let on_display = cache.window.len() < display_count;
    let n = cache.window.len() as int;
    assert(cache.window.take(n) =~= cache.window);
    if !(0 <= next < pb.order.len()) || !cache.ready.contains_key(path) {
    } else if !on_display && cache.vram + cache.ready[path].bytes > VRAM_LIMIT {
    } else if !on_display && ahead >= MAX_UPLOADS_PER_FRAME {
    } else {
        let more = if on_display {
            ahead
        } else {
            ahead + 1
        };
        let one = with_placed(cache, path);
        law_preload_is_bounded(pb, one, display_count, more);
        let end = placed(pb, one, display_count, more);
        assert(end.window.take(n) =~= end.window.take(n + 1).take(n));
        assert(one.window.take(n) =~= cache.window);
        if !on_display && end.window.len() == n + 1 {
            assert(end.window =~= one.window);
            lemma_placed_same(pb, one, display_count, more);
        }
    }
}

/// Where no place was given, no texture memory was taken.
proof fn lemma_placed_same(pb: Playback, cache: Cache, display_count: int, ahead: int)
    requires
        placed(pb, cache, display_count, ahead).window.len() == cache.window.len(),
    ensures
        placed(pb, cache, display_count, ahead).vram == cache.vram,
{
    let next = pb.cursor + cache.window.len();
    let path = pb.order[next];
    let on_display = cache.window.len() < display_count;
    if !(0 <= next < pb.order.len()) || !cache.ready.contains_key(path) {
    } else if !on_display && cache.vram + cache.ready[path].bytes > VRAM_LIMIT {
    } else if !on_display && ahead >= MAX_UPLOADS_PER_FRAME {
    } else {
        lemma_placed_grows(
            pb,
            with_placed(cache, path),
            display_count,
            if on_display {
                ahead
            } else {
                ahead + 1
            },
        );
    }
}

proof fn lemma_placed_grows(pb: Playback, cache: Cache, display_count: int, ahead: int)
    ensures
        placed(pb, cache, display_count, ahead).window.len() >= cache.window.len(),
    decreases pb.order.len() - pb.cursor - cache.window.len(),
{
    let next = pb.cursor + cache.window.len();
    let path = pb.order[next];
    let on_display = cache.window.len() < display_count;
    if !(0 <= next < pb.order.len()) || !cache.ready.contains_key(path) {
    } else if !on_display && cache.vram + cache.ready[path].bytes > VRAM_LIMIT {
    } else if !on_display && ahead >= MAX_UPLOADS_PER_FRAME {
    } else {
        lemma_placed_grows(
            pb,
            with_placed(cache, path),
            display_count,
            if on_display {
                ahead
            } else {
                ahead + 1
            },
        );
    }
}

/// A picture is asked for only while it is neither decoded nor asked for, for
/// the current epoch, and ahead of the display only while there is room.
pub proof fn law_request_is_wanted(s: Asking, want: Want, taken: bool)
    requires
        asked(s, want, taken).pool != s.pool,
    ensures
        !s.cache.ready.contains_key(want.path),
        !s.cache.inflight.contains(want.path),
        asked(s, want, taken).cache.inflight == if taken {
            s.cache.inflight.insert(want.path)
        } else {
            s.cache.inflight
        },
        asked(s, want, taken).pool == offer(s.pool, s.cache, want, taken),
        !want.display ==> {
            &&& s.cache.inflight.len() < MAX_INFLIGHT
            &&& s.cache.ready.len() < MAX_READY_BUFFER
            &&& !s.cache.blocked
        },
{
}

/// The requests from the `from`th on carry the epoch.
pub open spec fn all_of_epoch(offered: Seq<(Request, bool)>, from: int, epoch: u64) -> bool {
    forall|i: int| from <= i < offered.len() ==> (#[trigger] offered[i]).0.epoch == epoch
}

/// Every request that is offered carries the epoch that was announced last, so
/// that the workers decode it; the epoch stays the announced one.
pub proof fn law_requests_are_current(s: Asking, wanted: Seq<Want>, taken: Seq<bool>, n: int)
    requires
        s.cache.epoch == s.pool.epoch,
    ensures
        ({
            let end = asked_all(s, wanted, taken, n);
            let shown = s.pool.display.offered;
            let ahead = s.pool.prefetch.offered;
            &&& end.cache.epoch == s.cache.epoch
            &&& end.pool.epoch == s.pool.epoch
            &&& end.pool.open == s.pool.open
            &&& shown.is_prefix_of(end.pool.display.offered)
            &&& ahead.is_prefix_of(end.pool.prefetch.offered)
            &&& all_of_epoch(end.pool.display.offered, shown.len() as int, s.pool.epoch)
            &&& all_of_epoch(end.pool.prefetch.offered, ahead.len() as int, s.pool.epoch)
        }),
    decreases n,
{
    if n > 0 {
        law_requests_are_current(s, wanted, taken, n - 1);
    }
}

} // verus!
