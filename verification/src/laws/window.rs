//! What is collected, placed, asked for and evicted.

use crate::cache::{emptied, next_cycle, Cache, Slot};
use crate::decoder::{Answer, DecodeResult, Outcome, Pool, Request, Returns};
use crate::image_loader::{color_size, Picture};
use crate::playback::Playback;
use crate::refill::{
    asked, collected, collected_all, placed, receipts, refilled, wanted_from, with_placed, Arrived,
    Asking, Frame, Want,
};
use crate::{
    MAX_DECODE_FAILS, MAX_INFLIGHT, MAX_READY_BUFFER, MAX_RESULTS_PER_FRAME, MAX_UPLOADS_PER_FRAME,
    READAHEAD_DEPTH, VRAM_LIMIT,
};
use vstd::prelude::*;

verus! {

/// The slot shows the picture of its path, at its own size, and has not been
/// uploaded.
pub open spec fn shows_picture(slot: Slot, picture: Picture) -> bool {
    &&& slot.pixels == Some(picture.color)
    &&& slot.texture is None
    &&& slot.width == picture.width
    &&& slot.height == picture.height
    &&& slot.vram == picture.bytes
}

/// Every picture that gets a place is the decoded picture of the path that the
/// order has there, with its width and its height. What had a place keeps it.
/// Decoded pictures without a place stay as they were.
pub proof fn law_placed_pictures_are_their_own(
    pb: Playback,
    cache: Cache,
    display_count: int,
    ahead: int,
)
    requires
        pb.order.no_duplicates(),
        0 <= pb.cursor,
    ensures
        ({
            let end = placed(pb, cache, display_count, ahead);
            let from = cache.window.len() as int;
            &&& from <= end.window.len()
            &&& forall|i: int| 0 <= i < from ==> #[trigger] end.window[i] == cache.window[i]
            &&& forall|i: int|
                from <= i < end.window.len() ==> {
                    let slot = #[trigger] end.window[i];
                    &&& pb.cursor + i < pb.order.len()
                    &&& slot.path == pb.order[pb.cursor + i]
                    &&& cache.ready.contains_key(slot.path)
                    &&& shows_picture(slot, cache.ready[slot.path])
                    &&& !end.ready.contains_key(slot.path)
                }
            &&& forall|p: Seq<char>| #[trigger]
                end.ready.contains_key(p) ==> cache.ready.contains_key(p) && end.ready[p]
                    == cache.ready[p]
            &&& forall|p: Seq<char>|
                cache.ready.contains_key(p) && !(#[trigger] end.ready.contains_key(p))
                    ==> exists|i: int|
                    from <= i < end.window.len() && (#[trigger] end.window[i]).path == p
            &&& end.inflight == cache.inflight
            &&& end.epoch == cache.epoch
            &&& end.pending_free == cache.pending_free
        }),
    decreases pb.order.len() - pb.cursor - cache.window.len(),
{
    let next = pb.cursor + cache.window.len();
    let path = pb.order[next];
    let on_display = cache.window.len() < display_count;
    if !(0 <= next < pb.order.len()) || !cache.ready.contains_key(path) {
    } else if !on_display && cache.vram + cache.ready[path].bytes > VRAM_LIMIT {
    } else if !on_display && ahead >= MAX_UPLOADS_PER_FRAME {
    } else {
        let one = with_placed(cache, path);
        let more = if on_display {
            ahead
        } else {
            ahead + 1
        };
        let n = cache.window.len() as int;
        law_placed_pictures_are_their_own(pb, one, display_count, more);
        let end = placed(pb, one, display_count, more);
        assert(end.window[n] == one.window[n]);
        assert forall|i: int| 0 <= i < n implies #[trigger] end.window[i] == cache.window[i] by {
            assert(end.window[i] == one.window[i]);
        }
        assert forall|i: int| n <= i < end.window.len() implies {
            let slot = #[trigger] end.window[i];
            &&& pb.cursor + i < pb.order.len()
            &&& slot.path == pb.order[pb.cursor + i]
            &&& cache.ready.contains_key(slot.path)
            &&& shows_picture(slot, cache.ready[slot.path])
            &&& !end.ready.contains_key(slot.path)
        } by {
            if i == n {
                assert(!one.ready.contains_key(path));
            } else {
                assert(one.ready.contains_key(end.window[i].path));
                assert(pb.order[pb.cursor + i] != pb.order[next]);
            }
        }
        assert forall|p: Seq<char>|
            cache.ready.contains_key(p) && !(#[trigger] end.ready.contains_key(p)) implies exists|
            i: int,
        |
            n <= i < end.window.len() && (#[trigger] end.window[i]).path == p by {
            if p == path {
                assert(end.window[n].path == p);
            } else {
                assert(one.ready.contains_key(p));
            }
        }
    }
}

/// A picture that gets a place is drawn at the size that its pixels have.
pub proof fn law_slot_has_the_size_of_its_pixels(slot: Slot, picture: Picture)
    requires
        picture.wf(),
        shows_picture(slot, picture),
    ensures
        color_size(slot.pixels->0) == (slot.width as nat, slot.height as nat),
        slot.vram == slot.width * slot.height * 4,
{
}

/// How far places are given: no place on display is left empty while the next
/// picture of the order is decoded, and ahead of the display none is left empty
/// unless texture memory or the number of uploads forbids it.
pub proof fn law_places_are_given_as_far_as_possible(
    pb: Playback,
    cache: Cache,
    display_count: int,
    ahead: int,
)
    requires
        0 <= pb.cursor,
        0 <= ahead <= MAX_UPLOADS_PER_FRAME,
    ensures
        ({
            let end = placed(pb, cache, display_count, ahead);
            let next = pb.cursor + end.window.len();
            let shown = if cache.window.len() < display_count {
                display_count
            } else {
                cache.window.len() as int
            };
            &&& next < pb.order.len() && end.ready.contains_key(pb.order[next]) ==> {
                &&& end.window.len() >= display_count
                &&& end.vram + end.ready[pb.order[next]].bytes > VRAM_LIMIT || end.window.len()
                    == shown + MAX_UPLOADS_PER_FRAME - ahead
            }
            &&& end.blocked <==> cache.blocked || (next < pb.order.len()
                && end.ready.contains_key(pb.order[next]) && end.vram
                + end.ready[pb.order[next]].bytes > VRAM_LIMIT)
        }),
    decreases pb.order.len() - pb.cursor - cache.window.len(),
{
    let next = pb.cursor + cache.window.len();
    let path = pb.order[next];
    let on_display = cache.window.len() < display_count;
    if !(0 <= next < pb.order.len()) || !cache.ready.contains_key(path) {
    } else if !on_display && cache.vram + cache.ready[path].bytes > VRAM_LIMIT {
    } else if !on_display && ahead >= MAX_UPLOADS_PER_FRAME {
    } else {
        law_places_are_given_as_far_as_possible(
            pb,
            with_placed(cache, path),
            display_count,
            if on_display {
                ahead
            } else {
                ahead + 1
            },
        );
    }
}

/// The result is one of the current epoch, for a file that has not changed.
pub open spec fn counts(f: Frame, a: Arrived) -> bool {
    a.epoch == f.cache.epoch && a.asked == a.current
}

/// A result is about its own path: what is decoded, asked for, failed or in the
/// order of any other stays, and so do the window, the epoch, and all else of
/// playback. It is no longer waited for.
pub proof fn law_result_is_about_its_path(f: Frame, a: Arrived, q: Seq<char>)
    requires
        f.pb.order.no_duplicates(),
        q != a.path,
    ensures
        ({
            let g = collected(f, a);
            &&& g.cache.ready.contains_key(q) == f.cache.ready.contains_key(q)
            &&& g.cache.ready.contains_key(q) ==> g.cache.ready[q] == f.cache.ready[q]
            &&& g.cache.inflight.contains(q) == f.cache.inflight.contains(q)
            &&& g.pb.fails.contains_key(q) == f.pb.fails.contains_key(q)
            &&& g.pb.fails.contains_key(q) ==> g.pb.fails[q] == f.pb.fails[q]
            &&& g.pb.order.contains(q) == f.pb.order.contains(q)
            &&& a.epoch == f.cache.epoch ==> !g.cache.inflight.contains(a.path)
            &&& g.cache.window == f.cache.window
            &&& g.cache.vram == f.cache.vram
            &&& g.cache.epoch == f.cache.epoch
            &&& g.cache.blocked == f.cache.blocked
            &&& g.cache.pending_free == f.cache.pending_free
            &&& g.pb.cursor == f.pb.cursor
            &&& g.pb.cycle == f.pb.cycle
            &&& g.pb.last_shown == f.pb.last_shown
            &&& g.pb.pending == f.pb.pending
            &&& g.pb.empty_active == f.pb.empty_active
        }),
{
    lemma_rest(f.pb.order, a.path, q);
    let rest = f.pb.order.remove_value(a.path);
    assert(rest.push(a.path).contains(q) == rest.contains(q)) by {
        if rest.push(a.path).contains(q) {
            let k = choose|k: int|
                0 <= k < rest.push(a.path).len() && rest.push(a.path)[k] == q;
            assert(k < rest.len());
            assert(rest[k] == q);
        }
        if rest.contains(q) {
            let k = choose|k: int| 0 <= k < rest.len() && rest[k] == q;
            assert(rest.push(a.path)[k] == q);
        }
    }
}

/// Another path stays when one is taken out.
proof fn lemma_rest(order: Seq<Seq<char>>, path: Seq<char>, q: Seq<char>)
    requires
        order.no_duplicates(),
        q != path,
    ensures
        order.remove_value(path).contains(q) == order.contains(q),
        !order.remove_value(path).contains(path),
{
    order.index_of_first_ensures(path);
    let rest = order.remove_value(path);
    match order.index_of_first(path) {
        Some(i) => {
            if order.contains(q) {
                let k = choose|k: int| 0 <= k < order.len() && order[k] == q;
                let j = if k < i {
                    k
                } else {
                    k - 1
                };
                assert(rest[j] == q);
            }
            if rest.contains(q) {
                let k = choose|k: int| 0 <= k < rest.len() && rest[k] == q;
                let j = if k < i {
                    k
                } else {
                    k + 1
                };
                assert(order[j] == q);
            }
            if rest.contains(path) {
                let k = choose|k: int| 0 <= k < rest.len() && rest[k] == path;
                let j = if k < i {
                    k
                } else {
                    k + 1
                };
                assert(order[j] == path && order[i] == path);
            }
        },
        None => {},
    }
}

/// A decoded picture is ready, the very picture that came, its failures are
/// forgotten, and the order stays.
pub proof fn law_decoded_picture_is_ready(f: Frame, a: Arrived, picture: Picture)
    requires
        counts(f, a),
        a.outcome == Outcome::Decoded(picture),
    ensures
        ({
            let g = collected(f, a);
            &&& g.cache.ready.contains_key(a.path)
            &&& g.cache.ready[a.path] == picture
            &&& !g.pb.fails.contains_key(a.path)
            &&& g.pb.order == f.pb.order
            &&& g.oversized == f.oversized
            &&& g.changed == f.changed
        }),
{
}

/// A picture that is gone leaves the order, and so does one that is too large,
/// which is reported; neither counts as a failure. What is left keeps its order.
pub proof fn law_gone_and_oversized_pictures_leave(f: Frame, a: Arrived, i: int)
    requires
        counts(f, a),
        f.pb.order.no_duplicates(),
        0 <= i < f.pb.order.len(),
        f.pb.order[i] == a.path,
        a.outcome is Missing || a.outcome is Oversized,
    ensures
        ({
            let g = collected(f, a);
            &&& g.pb.order == f.pb.order.take(i) + f.pb.order.skip(i + 1)
            &&& g.pb.fails == f.pb.fails
            &&& g.changed
            &&& a.outcome is Missing ==> g.oversized == f.oversized
            &&& a.outcome is Oversized ==> g.oversized == f.oversized + seq![a.path]
                && !g.cache.ready.contains_key(a.path)
        }),
{
    lemma_place_of(f.pb.order, i);
    assert(f.pb.order.remove(i) =~= f.pb.order.take(i) + f.pb.order.skip(i + 1));
}

proof fn lemma_place_of(order: Seq<Seq<char>>, i: int)
    requires
        order.no_duplicates(),
        0 <= i < order.len(),
    ensures
        order.remove_value(order[i]) == order.remove(i),
{
    order.index_of_first_ensures(order[i]);
    assert(order.contains(order[i]));
}

/// A picture that fails once or twice in a row goes to the end of the order; at
/// the third time it leaves. What is left keeps its order. Nothing is reported.
pub proof fn law_failed_picture_is_tried_three_times(f: Frame, a: Arrived, i: int)
    requires
        counts(f, a),
        f.pb.order.no_duplicates(),
        0 <= i < f.pb.order.len(),
        f.pb.order[i] == a.path,
        a.outcome is Failed,
        f.pb.fails.contains_key(a.path) ==> f.pb.fails[a.path] < u32::MAX,
    ensures
        ({
            let g = collected(f, a);
            let before = if f.pb.fails.contains_key(a.path) {
                f.pb.fails[a.path] as int
            } else {
                0
            };
            let rest = f.pb.order.take(i) + f.pb.order.skip(i + 1);
            &&& g.pb.fails.contains_key(a.path)
            &&& g.pb.fails[a.path] == before + 1
            &&& before < 2 ==> g.pb.order == rest + seq![a.path]
            &&& before >= 2 ==> g.pb.order == rest
            &&& g.changed
            &&& g.oversized == f.oversized
            &&& g.cache.ready == f.cache.ready
        }),
        MAX_DECODE_FAILS == 3,
{
    lemma_place_of(f.pb.order, i);
    let rest = f.pb.order.take(i) + f.pb.order.skip(i + 1);
    assert(f.pb.order.remove(i) =~= rest);
    assert(rest.push(a.path) =~= rest + seq![a.path]);
}

/// A refill that changed the order starts a new epoch: nothing is decoded or
/// asked for in it, and the preload is free. One that did not keeps its epoch.
pub proof fn law_changed_order_starts_an_epoch(f: Frame, display_count: int)
    requires
        f.pb.order.no_duplicates(),
        0 <= f.pb.cursor,
    ensures
        ({
            let end = refilled(f, display_count);
            &&& f.changed ==> {
                &&& end.epoch != f.cache.epoch
                &&& end.ready.dom() == Set::<Seq<char>>::empty()
                &&& end.inflight == Set::<Seq<char>>::empty()
                &&& end.ready_bytes == 0
                &&& !end.blocked
            }
            &&& !f.changed ==> end.epoch == f.cache.epoch && end.inflight == f.cache.inflight
            &&& end.window == placed(f.pb, f.cache, display_count, 0).window
            &&& end.vram == placed(f.pb, f.cache, display_count, 0).vram
            &&& end.pending_free == f.cache.pending_free
        }),
{
    law_placed_pictures_are_their_own(f.pb, f.cache, display_count, 0);
    assert(refilled(f, display_count).ready.dom() =~= Set::empty() || !f.changed);
}

/// The path is among the wants, as one on display or not.
pub open spec fn asks_for(wanted: Seq<Want>, path: Seq<char>, display: bool) -> bool {
    exists|k: int|
        0 <= k < wanted.len() && (#[trigger] wanted[k]).path == path && wanted[k].display
            == display
}

/// Every place from `pos` on, within the readahead and the order, whose picture
/// is neither decoded nor asked for, is asked for, as one on display if it is
/// within the display. Nothing else is.
pub proof fn law_what_is_missing_is_wanted(
    pb: Playback,
    cache: Cache,
    display_count: int,
    pos: int,
    path: Seq<char>,
    display: bool,
)
    ensures
        asks_for(wanted_from(pb, cache, display_count, pos), path, display) <==> exists|j: int|
            {
                &&& pos <= j
                &&& j < READAHEAD_DEPTH || j < display_count
                &&& pb.cursor + j < pb.order.len()
                &&& #[trigger] pb.order[pb.cursor + j] == path
                &&& !cache.ready.contains_key(path)
                &&& !cache.inflight.contains(path)
                &&& display == (j < display_count)
            },
    decreases
            (if READAHEAD_DEPTH < display_count {
                display_count
            } else {
                READAHEAD_DEPTH as int
            }) - pos,
{
    let all = wanted_from(pb, cache, display_count, pos);
    let inside = (pos < READAHEAD_DEPTH || pos < display_count) && pb.cursor + pos
        < pb.order.len();
    if inside {
        let here = pb.order[pb.cursor + pos];
        law_what_is_missing_is_wanted(pb, cache, display_count, pos + 1, path, display);
        let rest = wanted_from(pb, cache, display_count, pos + 1);
        if cache.ready.contains_key(here) || cache.inflight.contains(here) {
            assert(all == rest);
        } else {
            assert(all[0].path == here && all[0].display == (pos < display_count));
            assert forall|k: int| 0 <= k < rest.len() implies #[trigger] all[k + 1] == rest[k] by {}
            if asks_for(rest, path, display) {
                let k = choose|k: int|
                    0 <= k < rest.len() && (#[trigger] rest[k]).path == path && rest[k].display
                        == display;
                assert(all[k + 1] == rest[k]);
                assert(asks_for(all, path, display));
            }
            if asks_for(all, path, display) {
                let k = choose|k: int|
                    0 <= k < all.len() && (#[trigger] all[k]).path == path && all[k].display
                        == display;
                if k > 0 {
                    assert(all[k] == rest[k - 1]);
                    assert(asks_for(rest, path, display));
                } else {
                    assert(pb.order[pb.cursor + pos] == path);
                }
            }
            if exists|j: int|
                {
                    &&& pos <= j
                    &&& j < READAHEAD_DEPTH || j < display_count
                    &&& pb.cursor + j < pb.order.len()
                    &&& #[trigger] pb.order[pb.cursor + j] == path
                    &&& !cache.ready.contains_key(path)
                    &&& !cache.inflight.contains(path)
                    &&& display == (j < display_count)
                } {
                let j = choose|j: int|
                    {
                        &&& pos <= j
                        &&& j < READAHEAD_DEPTH || j < display_count
                        &&& pb.cursor + j < pb.order.len()
                        &&& #[trigger] pb.order[pb.cursor + j] == path
                        &&& !cache.ready.contains_key(path)
                        &&& !cache.inflight.contains(path)
                        &&& display == (j < display_count)
                    };
                if j == pos {
                    assert(all[0].path == path && all[0].display == display);
                } else {
                    assert(pos + 1 <= j);
                }
            }
        }
    }
}

/// What is asked for comes in the order in which it is shown.
pub proof fn law_wants_come_in_order(
    pb: Playback,
    cache: Cache,
    display_count: int,
    pos: int,
    a: int,
    b: int,
)
    requires
        pb.order.no_duplicates(),
        0 <= pb.cursor,
        0 <= pos,
        0 <= a < b < wanted_from(pb, cache, display_count, pos).len(),
    ensures
        ({
            let wanted = wanted_from(pb, cache, display_count, pos);
            exists|i: int, j: int|
                pb.cursor + pos <= i < j < pb.order.len() && #[trigger] pb.order[i]
                    == wanted[a].path && #[trigger] pb.order[j] == wanted[b].path
        }),
    decreases
            (if READAHEAD_DEPTH < display_count {
                display_count
            } else {
                READAHEAD_DEPTH as int
            }) - pos,
{
    let here = pb.order[pb.cursor + pos];
    let all = wanted_from(pb, cache, display_count, pos);
    let rest = wanted_from(pb, cache, display_count, pos + 1);
    if cache.ready.contains_key(here) || cache.inflight.contains(here) {
        law_wants_come_in_order(pb, cache, display_count, pos + 1, a, b);
    } else if a == 0 {
        assert(all[b] == rest[b - 1]);
        lemma_want_is_behind(pb, cache, display_count, pos + 1, b - 1);
        assert(pb.order[pb.cursor + pos] == all[0].path);
    } else {
        assert(all[a] == rest[a - 1] && all[b] == rest[b - 1]);
        law_wants_come_in_order(pb, cache, display_count, pos + 1, a - 1, b - 1);
    }
}

proof fn lemma_want_is_behind(pb: Playback, cache: Cache, display_count: int, pos: int, k: int)
    requires
        0 <= pb.cursor,
        0 <= pos,
        0 <= k < wanted_from(pb, cache, display_count, pos).len(),
    ensures
        exists|j: int|
            pb.cursor + pos <= j < pb.order.len() && #[trigger] pb.order[j] == wanted_from(
                pb,
                cache,
                display_count,
                pos,
            )[k].path,
    decreases
            (if READAHEAD_DEPTH < display_count {
                display_count
            } else {
                READAHEAD_DEPTH as int
            }) - pos,
{
    let here = pb.order[pb.cursor + pos];
    let all = wanted_from(pb, cache, display_count, pos);
    let rest = wanted_from(pb, cache, display_count, pos + 1);
    if cache.ready.contains_key(here) || cache.inflight.contains(here) {
        lemma_want_is_behind(pb, cache, display_count, pos + 1, k);
    } else if k == 0 {
        assert(pb.order[pb.cursor + pos] == all[0].path);
    } else {
        assert(all[k] == rest[k - 1]);
        lemma_want_is_behind(pb, cache, display_count, pos + 1, k - 1);
    }
}

/// The request that was offered last.
pub open spec fn last_offer(pool: Pool, display: bool) -> (Request, bool) {
    if display {
        pool.display.offered.last()
    } else {
        pool.prefetch.offered.last()
    }
}

/// Whether a picture is asked for, with an open pool and nothing yet stopped:
/// always one that is on display and missing; ahead of it, one that is missing
/// while fewer than six are asked for, fewer than six are decoded, and texture
/// memory has room. The request is for the path, the epoch and the file of the
/// want, and goes to the queue that it is for and to no other.
pub proof fn law_missing_picture_is_asked_for(s: Asking, want: Want, taken: bool)
    requires
        s.pool.open,
        !s.stopped,
    ensures
        ({
            let end = asked(s, want, taken);
            let missing = !s.cache.ready.contains_key(want.path) && !s.cache.inflight.contains(
                want.path,
            );
            let room = s.cache.inflight.len() < 6 && s.cache.ready.len() < 6 && !s.cache.blocked;
            let asks = missing && (want.display || room);
            let shown = s.pool.display.offered.len();
            let ahead = s.pool.prefetch.offered.len();
            &&& end.pool.display.offered.len() == shown + (if asks && want.display {
                1int
            } else {
                0int
            })
            &&& end.pool.prefetch.offered.len() == ahead + (if asks && !want.display {
                1int
            } else {
                0int
            })
            &&& asks ==> {
                let (request, was_taken) = last_offer(end.pool, want.display);
                &&& request.path == want.path
                &&& request.epoch == s.cache.epoch
                &&& request.fingerprint == want.fingerprint
                &&& was_taken == taken
            }
            &&& end.cache.inflight.contains(want.path) == (s.cache.inflight.contains(want.path)
                || (asks && taken))
            &&& forall|q: Seq<char>|
                q != want.path ==> (#[trigger] end.cache.inflight.contains(q)
                    == s.cache.inflight.contains(q))
            &&& end.cache == (Cache { inflight: end.cache.inflight, ..s.cache })
            &&& end.stopped == (missing && (if want.display {
                !taken
            } else {
                !room
            }))
        }),
        MAX_INFLIGHT == 6,
        MAX_READY_BUFFER == 6,
{
}

/// When asking has stopped, nothing more is asked for.
pub proof fn law_stopped_asking_stays_stopped(s: Asking, want: Want, taken: bool)
    requires
        s.stopped,
    ensures
        asked(s, want, taken) == s,
{
}

/// A picture that is evicted leaves its place and its bytes; the others close
/// up, its texture is freed later, and nothing else changes.
pub proof fn law_evicted_picture_leaves(cache: Cache, i: int)
    requires
        0 <= i < cache.window.len(),
        cache.window[i].vram <= cache.vram,
    ensures
        ({
            let end = cache.without(i);
            &&& end.window == cache.window.take(i) + cache.window.skip(i + 1)
            &&& end.vram + cache.window[i].vram == cache.vram
            &&& match cache.window[i].texture {
                Some(texture) => end.pending_free == cache.pending_free + seq![texture],
                None => end.pending_free == cache.pending_free,
            }
            &&& end.ready == cache.ready
            &&& end.ready_bytes == cache.ready_bytes
            &&& end.inflight == cache.inflight
            &&& end.epoch == cache.epoch
            &&& end.blocked == cache.blocked
        }),
{
    assert(cache.window.remove(i) =~= cache.window.take(i) + cache.window.skip(i + 1));
    if let Some(texture) = cache.window[i].texture {
        assert(cache.pending_free.push(texture) =~= cache.pending_free + seq![texture]);
    }
}

/// A new epoch is another than the last; nothing is decoded or asked for in it,
/// and what has a place keeps it.
pub proof fn law_new_epoch_keeps_the_window(cache: Cache)
    ensures
        ({
            let end = cache.bumped();
            &&& end.epoch != cache.epoch
            &&& cache.epoch < u64::MAX ==> end.epoch == cache.epoch + 1
            &&& end.ready.dom() == Set::<Seq<char>>::empty()
            &&& end.inflight == Set::<Seq<char>>::empty()
            &&& end.ready_bytes == 0
            &&& end.window == cache.window
            &&& end.vram == cache.vram
            &&& end.pending_free == cache.pending_free
            &&& end.blocked == cache.blocked
        }),
{
    assert(cache.bumped().ready.dom() =~= Set::empty());
}

/// Where the display is emptied, nothing has a place, every texture is freed
/// later, and a new epoch begins.
pub proof fn law_emptied_display_frees_its_textures(cache: Cache)
    ensures
        ({
            let end = emptied(cache);
            &&& end.window.len() == 0
            &&& end.vram == 0
            &&& !end.blocked
            &&& end.epoch != cache.epoch
            &&& end.ready.dom() == Set::<Seq<char>>::empty()
            &&& end.inflight == Set::<Seq<char>>::empty()
            &&& cache.pending_free.is_prefix_of(end.pending_free)
            &&& forall|i: int|
                0 <= i < cache.window.len() && (#[trigger] cache.window[i]).texture is Some
                    ==> end.pending_free.contains(cache.window[i].texture->0)
        }),
{
    let n = cache.window.len() as int;
    lemma_first_gone(cache, n);
    let end = emptied(cache);
    assert(end.ready.dom() =~= Set::empty());
    assert(cache.window.skip(n) =~= Seq::empty());
}

/// The first `n` pictures leave in order, and their textures are freed later.
proof fn lemma_first_gone(cache: Cache, n: int)
    requires
        0 <= n <= cache.window.len(),
    ensures
        ({
            let end = cache.without_first(n);
            &&& end.window == cache.window.skip(n)
            &&& end.epoch == cache.epoch
            &&& end.ready == cache.ready
            &&& end.inflight == cache.inflight
            &&& end.blocked == cache.blocked
            &&& cache.pending_free.is_prefix_of(end.pending_free)
            &&& forall|i: int|
                0 <= i < n && (#[trigger] cache.window[i]).texture is Some
                    ==> end.pending_free.contains(cache.window[i].texture->0)
        }),
    decreases n,
{
    if n == 0 {
        assert(cache.window.skip(0) =~= cache.window);
    } else {
        let one = cache.without(0);
        lemma_first_gone(one, n - 1);
        let end = cache.without_first(n);
        assert(one.window.skip(n - 1) =~= cache.window.skip(n));
        assert forall|i: int|
            0 <= i < n && (#[trigger] cache.window[i]).texture is Some implies
            end.pending_free.contains(cache.window[i].texture->0) by {
            if i == 0 {
                let k = cache.pending_free.len() as int;
                assert(one.pending_free[k] == cache.window[0].texture->0);
                assert(end.pending_free[k] == one.pending_free[k]);
            } else {
                assert(one.window[i - 1] == cache.window[i]);
            }
        }
    }
}

/// A new cycle begins at the first picture of its order and is one more; what
/// was shown last, what waits and what has failed is kept.
pub proof fn law_new_cycle_is_one_more(pb: Playback, order: Seq<Seq<char>>)
    ensures
        ({
            let next = next_cycle(pb, order);
            &&& next.order == order
            &&& next.cursor == 0
            &&& pb.cycle < u32::MAX ==> next.cycle == pb.cycle + 1
            &&& pb.cycle == u32::MAX ==> next.cycle == 0
            &&& next.last_shown == pb.last_shown
            &&& next.pending == pb.pending
            &&& next.fails == pb.fails
            &&& !next.empty_active
        }),
{
}

/// Results are collected one after the other, in the order in which they came.
pub proof fn law_results_are_collected_in_turn(f: Frame, first: Seq<Arrived>, rest: Seq<Arrived>)
    ensures
        collected_all(f, first + rest, (first + rest).len() as int) == collected_all(
            collected_all(f, first, first.len() as int),
            rest,
            rest.len() as int,
        ),
        first.len() == 1 ==> collected_all(f, first, 1) == collected(f, first[0]),
    decreases rest.len(),
{
    reveal_with_fuel(collected_all, 2);
    if rest.len() > 0 {
        let less = rest.drop_last();
        law_results_are_collected_in_turn(f, first, less);
        lemma_collected_prefix(f, first + rest, first + less, (first + less).len() as int);
        lemma_collected_prefix(
            collected_all(f, first, first.len() as int),
            rest,
            less,
            less.len() as int,
        );
        assert((first + rest)[(first + rest).len() - 1] == rest[rest.len() - 1]);
    } else {
        assert(first + rest =~= first);
    }
}

/// Only the first `n` results matter for what is collected of them.
proof fn lemma_collected_prefix(f: Frame, a: Seq<Arrived>, b: Seq<Arrived>, n: int)
    requires
        0 <= n <= a.len(),
        n <= b.len(),
        forall|i: int| 0 <= i < n ==> a[i] == b[i],
    ensures
        collected_all(f, a, n) == collected_all(f, b, n),
    decreases n,
{
    if n > 0 {
        lemma_collected_prefix(f, a, b, n - 1);
    }
}

/// Every result that came out of the queue is handed on, in the order in which
/// they came; the queue is asked once more where fewer came than are taken in a
/// frame. Nothing else of the pool changes.
pub proof fn law_results_are_handed_on(pool: Pool, results: Seq<DecodeResult>, i: int)
    requires
        pool.open,
        0 <= i < results.len() <= MAX_RESULTS_PER_FRAME,
    ensures
        ({
            let next = pool.with_received(receipts(results));
            let before = pool.results.received.len();
            &&& next.results.received.take(before as int) == pool.results.received
            &&& next.results.received[before + i] == Some(
                Answer {
                    path: results[i].path@,
                    epoch: results[i].epoch,
                    fingerprint: results[i].fingerprint,
                    outcome: results[i].outcome@,
                },
            )
            &&& results.len() == MAX_RESULTS_PER_FRAME ==> next.results.received.len() == before
                + results.len()
            &&& results.len() < MAX_RESULTS_PER_FRAME ==> {
                &&& next.results.received.len() == before + results.len() + 1
                &&& next.results.received.last() is None
            }
            &&& next == (Pool {
                results: Returns { received: next.results.received, ..pool.results },
                ..pool
            })
        }),
        MAX_RESULTS_PER_FRAME == 4,
{
    let next = pool.with_received(receipts(results));
    assert(next.results.received.take(pool.results.received.len() as int)
        =~= pool.results.received);
}

} // verus!
