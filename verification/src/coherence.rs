//! What holds of the slideshow at all times: the window mirrors the play order
//! from the cursor on, no picture is in the order twice, what is decoded or
//! asked for is ahead of the window, and the bytes counted are the bytes held.
//!
//! Each change of the state keeps this, and keeps the part of the order before
//! the cursor: the pictures that this cycle has shown.

use crate::app::{
    deleted, oversized_handled, reset_to, was_moved, window_place, App, DeleteEvent, OversizedEvent,
};
use crate::cache::{Cache, Settle, Slot};
use crate::decoder::Outcome;
use crate::frame::{refilled_app, settled_as, settles_to};
use crate::image_loader::Picture;
use crate::paths::{lemma_filter_members, lemma_push_members, lemma_rearranged, rearranged};
use crate::playback::{restored, tail_shuffled, Pending, Playback};
use crate::ready::{lemma_total_insert, lemma_total_remove, total_bytes};
use crate::refill::{
    asked, asked_all, collected, collected_all, placed, reach, refilled, wanted_from, with_placed,
    Arrived, Asking, Frame, Want,
};
use crate::scanner::{
    displayed, newcomers, pending_paths, promoted, rescanned, scan_paths, settled, swept_tail,
    swept_window, unsettled, FileStat, Scanned, Sweep,
};
use crate::{MAX_UPLOADS_PER_FRAME, VRAM_LIMIT};
use vstd::prelude::*;
use vstd::seq_lib::lemma_no_dup_in_concat;

verus! {

/// The part of the order behind the window.
pub open spec fn ahead(pb: Playback, cache: Cache) -> Seq<Seq<char>> {
    pb.order.skip(pb.cursor + cache.window.len())
}

/// Bytes of the pictures in a window.
pub open spec fn window_bytes(window: Seq<Slot>) -> nat
    decreases window.len(),
{
    if window.len() == 0 {
        0
    } else {
        window_bytes(window.drop_last()) + window.last().vram
    }
}

/// The window shows the order from the cursor on, without a gap.
pub open spec fn mirrors(pb: Playback, window: Seq<Slot>) -> bool {
    &&& 0 <= pb.cursor
    &&& pb.cursor + window.len() <= pb.order.len()
    &&& forall|i: int|
        0 <= i < window.len() ==> (#[trigger] window[i]).path == pb.order[pb.cursor + i]
}

/// No picture is in the order or among the pending files twice, or in both.
pub open spec fn distinct(pb: Playback) -> bool {
    &&& pb.order.no_duplicates()
    &&& pending_paths(pb.pending).no_duplicates()
    &&& forall|p: Seq<char>|
        pb.order.contains(p) ==> !(#[trigger] pending_paths(pb.pending).contains(p))
}

/// What is decoded or asked for is ahead of the window, and never both.
pub open spec fn expected(pb: Playback, cache: Cache) -> bool {
    &&& forall|p: Seq<char>|
        #[trigger] cache.ready.contains_key(p) ==> ahead(pb, cache).contains(p)
            && !cache.inflight.contains(p)
    &&& forall|p: Seq<char>|
        #[trigger] cache.inflight.contains(p) ==> ahead(pb, cache).contains(p)
}

/// What is held is finite, and the bytes counted are the bytes held.
pub open spec fn accounted(cache: Cache) -> bool {
    &&& cache.ready.dom().finite()
    &&& cache.inflight.finite()
    &&& cache.ready_bytes == total_bytes(cache.ready)
    &&& cache.vram == window_bytes(cache.window)
}

/// Playback and cache fit together.
pub open spec fn coherent(pb: Playback, cache: Cache) -> bool {
    &&& mirrors(pb, cache.window)
    &&& distinct(pb)
    &&& expected(pb, cache)
    &&& accounted(cache)
}

/// The bytes counted for decoded pictures cover them, as a refill needs.
pub proof fn law_coherent_cache_covers(pb: Playback, cache: Cache)
    requires
        coherent(pb, cache),
    ensures
        cache.covers(),
{
}

/// The pictures that this cycle has shown are still the same.
pub open spec fn keeps_shown(before: Playback, after: Playback) -> bool {
    &&& after.cursor == before.cursor
    &&& after.order.take(after.cursor) == before.order.take(before.cursor)
}

proof fn lemma_window_bytes_push(window: Seq<Slot>, slot: Slot)
    ensures
        window_bytes(window.push(slot)) == window_bytes(window) + slot.vram,
{
    assert(window.push(slot).drop_last() =~= window);
}

proof fn lemma_window_bytes_remove(window: Seq<Slot>, i: int)
    requires
        0 <= i < window.len(),
    ensures
        window_bytes(window) == window_bytes(window.remove(i)) + window[i].vram,
    decreases window.len(),
{
    if i == window.len() - 1 {
        assert(window.remove(i) =~= window.drop_last());
    } else {
        lemma_window_bytes_remove(window.drop_last(), i);
        assert(window.remove(i).drop_last() =~= window.drop_last().remove(i));
    }
}

/// A path that is in the order once, taken out of it.
proof fn lemma_take_out(order: Seq<Seq<char>>, i: int)
    requires
        order.no_duplicates(),
        0 <= i < order.len(),
    ensures
        order.remove_value(order[i]) == order.remove(i),
        order.remove(i).no_duplicates(),
        forall|p: Seq<char>|
            #[trigger] order.remove(i).contains(p) <==> order.contains(p) && p != order[i],
{
    order.index_of_first_ensures(order[i]);
    assert(order.contains(order[i]));
    let rest = order.remove(i);
    assert forall|p: Seq<char>| #[trigger] rest.contains(p) implies order.contains(p) && p
        != order[i] by {
        let k = choose|k: int| 0 <= k < rest.len() && rest[k] == p;
        let j = if k < i {
            k
        } else {
            k + 1
        };
        assert(order[j] == p);
    }
    assert forall|p: Seq<char>| order.contains(p) && p != order[i] implies #[trigger] rest.contains(
        p,
    ) by {
        let k = choose|k: int| 0 <= k < order.len() && order[k] == p;
        let j = if k < i {
            k
        } else {
            k - 1
        };
        assert(rest[j] == p);
    }
}

proof fn lemma_ahead_member(order: Seq<Seq<char>>, from: int, p: Seq<char>)
    requires
        0 <= from <= order.len(),
    ensures
        order.skip(from).contains(p) <==> exists|j: int| from <= j < order.len() && order[j] == p,
{
    if order.skip(from).contains(p) {
        let k = choose|k: int| 0 <= k < order.skip(from).len() && order.skip(from)[k] == p;
        assert(order[from + k] == p);
    }
    if exists|j: int| from <= j < order.len() && order[j] == p {
        let j = choose|j: int| from <= j < order.len() && order[j] == p;
        assert(order.skip(from)[j - from] == p);
    }
}

/// A path ahead of `from` is taken out: what is before `from` stays, and so do
/// the others behind it.
proof fn lemma_take_out_ahead(order: Seq<Seq<char>>, from: int, p: Seq<char>)
    requires
        order.no_duplicates(),
        0 <= from <= order.len(),
        order.skip(from).contains(p),
    ensures
        order.remove_value(p).no_duplicates(),
        order.remove_value(p).len() == order.len() - 1,
        from < order.len(),
        order.remove_value(p).take(from) == order.take(from),
        forall|q: Seq<char>|
            #[trigger] order.remove_value(p).skip(from).contains(q) <==> order.skip(
                from,
            ).contains(q) && q != p,
        forall|q: Seq<char>|
            #[trigger] order.remove_value(p).contains(q) <==> order.contains(q) && q != p,
{
    lemma_ahead_member(order, from, p);
    let i = choose|i: int| from <= i < order.len() && order[i] == p;
    lemma_take_out(order, i);
    let rest = order.remove_value(p);
    assert(rest.take(from) =~= order.take(from));
    let tail = order.skip(from);
    assert(tail.no_duplicates());
    lemma_take_out(tail, i - from);
    assert(rest.skip(from) =~= tail.remove(i - from));
}

/// A result of the current epoch answers a request that is in flight.
pub open spec fn answers(cache: Cache, a: Arrived) -> bool {
    a.epoch == cache.epoch ==> cache.inflight.contains(a.path)
}

/// Collecting a result keeps playback and cache together.
pub proof fn law_collect_keeps_coherence(f: Frame, a: Arrived)
    requires
        coherent(f.pb, f.cache),
        answers(f.cache, a),
    ensures
        coherent(collected(f, a).pb, collected(f, a).cache),
        keeps_shown(f.pb, collected(f, a).pb),
        collected(f, a).cache.window == f.cache.window,
{
    let next = collected(f, a);
    if a.epoch == f.cache.epoch {
        let from = f.pb.cursor + f.cache.window.len();
        let cache = Cache { inflight: f.cache.inflight.remove(a.path), ..f.cache };
        assert(ahead(f.pb, f.cache).contains(a.path));
        lemma_take_out_ahead(f.pb.order, from, a.path);
        assert(!f.cache.ready.contains_key(a.path));
        let rest = f.pb.order.remove_value(a.path);
        assert(rest.take(f.pb.cursor) =~= rest.take(from).take(f.pb.cursor));
        assert(f.pb.order.take(f.pb.cursor) =~= f.pb.order.take(from).take(f.pb.cursor));
        assert forall|i: int| 0 <= i < f.cache.window.len() implies
            (#[trigger] f.cache.window[i]).path == rest[f.pb.cursor + i] by {
            assert(rest.take(from)[f.pb.cursor + i] == f.pb.order.take(from)[f.pb.cursor + i]);
        }
        if a.asked == a.current {
            match a.outcome {
                Outcome::Decoded(picture) => {
                    lemma_total_insert(f.cache.ready, a.path, picture);
                    assert(f.cache.ready.remove(a.path) =~= f.cache.ready);
                },
                Outcome::Failed => {
                    let end = rest.push(a.path);
                    assert(end.take(f.pb.cursor) =~= rest.take(f.pb.cursor));
                    assert(end.skip(from) =~= rest.skip(from).push(a.path));
                    assert forall|q: Seq<char>|
                        f.pb.order.skip(from).contains(q) implies
                        #[trigger] end.skip(from).contains(q) by {
                        if q == a.path {
                            assert(end.skip(from).last() == q);
                        } else {
                            assert(rest.skip(from).contains(q));
                            let k = choose|k: int|
                                0 <= k < rest.skip(from).len() && rest.skip(from)[k] == q;
                            assert(end.skip(from)[k] == q);
                        }
                    }
                    assert forall|q: Seq<char>| #[trigger] end.contains(q) implies
                        f.pb.order.contains(q) by {
                        let k = choose|k: int| 0 <= k < end.len() && end[k] == q;
                        if k < rest.len() {
                            assert(rest[k] == q);
                            assert(rest.contains(q));
                        } else {
                            lemma_ahead_member(f.pb.order, from, a.path);
                        }
                    }
                    assert(!rest.contains(a.path));
                    assert(end.no_duplicates());
                },
                Outcome::Missing => {},
                Outcome::Oversized { .. } => {
                    assert(f.cache.ready.remove(a.path) =~= f.cache.ready);
                },
            }
        }
    }
}

/// The results of the current epoch answer requests that are in flight, each
/// another one.
pub open spec fn all_answer(cache: Cache, arrivals: Seq<Arrived>) -> bool {
    &&& forall|i: int| 0 <= i < arrivals.len() ==> answers(cache, #[trigger] arrivals[i])
    &&& forall|i: int, j: int|
        0 <= i < j < arrivals.len() && (#[trigger] arrivals[i]).epoch == cache.epoch && (
        #[trigger] arrivals[j]).epoch == cache.epoch ==> arrivals[i].path != arrivals[j].path
}

proof fn lemma_collect_all(f: Frame, arrivals: Seq<Arrived>, n: int)
    requires
        coherent(f.pb, f.cache),
        all_answer(f.cache, arrivals),
        0 <= n <= arrivals.len(),
    ensures
        ({
            let g = collected_all(f, arrivals, n);
            &&& coherent(g.pb, g.cache)
            &&& keeps_shown(f.pb, g.pb)
            &&& g.cache.window == f.cache.window
            &&& g.cache.epoch == f.cache.epoch
            &&& g.cache.vram == f.cache.vram
            &&& forall|i: int|
                n <= i < arrivals.len() ==> answers(g.cache, #[trigger] arrivals[i])
        }),
    decreases n,
{
    if n > 0 {
        lemma_collect_all(f, arrivals, n - 1);
        let g = collected_all(f, arrivals, n - 1);
        assert(answers(g.cache, arrivals[n - 1]));
        law_collect_keeps_coherence(g, arrivals[n - 1]);
        let h = collected(g, arrivals[n - 1]);
        assert forall|i: int| n <= i < arrivals.len() implies answers(
            h.cache,
            #[trigger] arrivals[i],
        ) by {
            assert(answers(g.cache, arrivals[i]));
        }
    }
}

/// The pictures that a refill reports as oversized have left: none of them is in
/// the order or among the pending files, and none is reported twice. So each can
/// be put back.
pub proof fn law_oversized_pictures_have_left(f: Frame, arrivals: Seq<Arrived>, n: int)
    requires
        coherent(f.pb, f.cache),
        all_answer(f.cache, arrivals),
        0 <= n <= arrivals.len(),
    ensures
        ({
            let g = collected_all(f, arrivals, n);
            let from = f.oversized.len() as int;
            &&& f.oversized.is_prefix_of(g.oversized)
            &&& g.pb.pending == f.pb.pending
            &&& forall|k: int|
                from <= k < g.oversized.len() ==> !g.pb.order.contains(
                    #[trigger] g.oversized[k],
                ) && !pending_paths(g.pb.pending).contains(g.oversized[k])
            &&& forall|j: int, k: int|
                from <= j < k < g.oversized.len() ==> #[trigger] g.oversized[j]
                    != #[trigger] g.oversized[k]
        }),
    decreases n,
{
    if n > 0 {
        law_oversized_pictures_have_left(f, arrivals, n - 1);
        lemma_collect_all(f, arrivals, n - 1);
        let g = collected_all(f, arrivals, n - 1);
        let a = arrivals[n - 1];
        let h = collected(g, a);
        assert(answers(g.cache, a));
        if a.epoch == g.cache.epoch {
            let from = g.pb.cursor + g.cache.window.len();
            assert(ahead(g.pb, g.cache).contains(a.path));
            lemma_ahead_member(g.pb.order, from, a.path);
            assert(g.pb.order.contains(a.path));
            lemma_take_out_ahead(g.pb.order, from, a.path);
            let rest = g.pb.order.remove_value(a.path);
            assert forall|p: Seq<char>| #[trigger] h.pb.order.contains(p) implies
                g.pb.order.contains(p) by {
                lemma_push_members(rest, a.path);
            }
        }
    }
}

/// Giving a decoded picture the next place keeps playback and cache together.
pub proof fn lemma_with_placed(pb: Playback, cache: Cache)
    requires
        coherent(pb, cache),
        pb.cursor + cache.window.len() < pb.order.len(),
        cache.ready.contains_key(pb.order[pb.cursor + cache.window.len()]),
    ensures
        coherent(pb, with_placed(cache, pb.order[pb.cursor + cache.window.len()])),
{
    let from = pb.cursor + cache.window.len();
    let path = pb.order[from];
    let next = with_placed(cache, path);
    lemma_total_remove(cache.ready, path);
    lemma_window_bytes_push(cache.window, next.window.last());
    assert(next.window.drop_last() =~= cache.window);
    assert forall|p: Seq<char>| pb.order.skip(from).contains(p) && p != path implies
        #[trigger] pb.order.skip(from + 1).contains(p) by {
        let k = choose|k: int| 0 <= k < pb.order.skip(from).len() && pb.order.skip(from)[k] == p;
        assert(pb.order.skip(from + 1)[k - 1] == p);
    }
}

proof fn lemma_placed(pb: Playback, cache: Cache, display_count: int, uploads: int)
    requires
        coherent(pb, cache),
    ensures
        coherent(pb, placed(pb, cache, display_count, uploads)),
    decreases pb.order.len() - pb.cursor - cache.window.len(),
{
    let next = pb.cursor + cache.window.len();
    let path = pb.order[next];
    let on_display = cache.window.len() < display_count;
    if !(0 <= next < pb.order.len()) || !cache.ready.contains_key(path) {
    } else if !on_display && cache.vram + cache.ready[path].bytes > VRAM_LIMIT {
        let end = Cache { blocked: true, ..cache };
        assert(ahead(pb, end) == ahead(pb, cache));
    } else if !on_display && uploads >= MAX_UPLOADS_PER_FRAME {
    } else {
        lemma_with_placed(pb, cache);
        lemma_placed(
            pb,
            with_placed(cache, path),
            display_count,
            if on_display {
                uploads
            } else {
                uploads + 1
            },
        );
    }
}

/// A new epoch keeps playback and cache together.
proof fn lemma_bumped(pb: Playback, cache: Cache)
    requires
        mirrors(pb, cache.window),
        distinct(pb),
        cache.vram == window_bytes(cache.window),
    ensures
        coherent(pb, cache.bumped()),
        coherent(pb, Cache { blocked: false, ..cache.bumped() }),
{
    assert(total_bytes(Map::<Seq<char>, Picture>::empty()) == 0);
}

/// A refill keeps playback and cache together, and the pictures that this
/// cycle has shown.
pub proof fn law_refill_keeps_coherence(f: Frame, arrivals: Seq<Arrived>, display_count: int)
    requires
        coherent(f.pb, f.cache),
        !f.changed,
        all_answer(f.cache, arrivals),
    ensures
        ({
            let g = collected_all(f, arrivals, arrivals.len() as int);
            &&& coherent(g.pb, refilled(g, display_count))
            &&& keeps_shown(f.pb, g.pb)
        }),
{
    lemma_collect_all(f, arrivals, arrivals.len() as int);
    let g = collected_all(f, arrivals, arrivals.len() as int);
    lemma_placed(g.pb, g.cache, display_count, 0);
    let cache = placed(g.pb, g.cache, display_count, 0);
    lemma_bumped(g.pb, cache);
}

/// The pictures to ask for are ahead of the window, neither decoded nor asked
/// for, and within reach of the cursor.
pub proof fn law_wanted_is_ahead(pb: Playback, cache: Cache, display_count: int, pos: int)
    requires
        0 <= pb.cursor,
        cache.window.len() <= pos,
        pb.cursor + cache.window.len() <= pb.order.len(),
    ensures
        forall|i: int|
            0 <= i < wanted_from(pb, cache, display_count, pos).len() ==> {
                let want = #[trigger] wanted_from(pb, cache, display_count, pos)[i];
                &&& ahead(pb, cache).contains(want.path)
                &&& !cache.ready.contains_key(want.path)
                &&& !cache.inflight.contains(want.path)
            },
        wanted_from(pb, cache, display_count, pos).len() <= if pos < reach(display_count) {
            reach(display_count) - pos
        } else {
            0
        },
    decreases reach(display_count) - pos,
{
    let path = pb.order[pb.cursor + pos];
    if pos >= reach(display_count) || pb.cursor + pos >= pb.order.len() {
    } else {
        law_wanted_is_ahead(pb, cache, display_count, pos + 1);
        let rest = wanted_from(pb, cache, display_count, pos + 1);
        let all = wanted_from(pb, cache, display_count, pos);
        lemma_ahead_member(pb.order, pb.cursor + cache.window.len(), path);
        if !(cache.ready.contains_key(path) || cache.inflight.contains(path)) {
            assert forall|i: int| 0 <= i < all.len() implies {
                let want = #[trigger] all[i];
                &&& ahead(pb, cache).contains(want.path)
                &&& !cache.ready.contains_key(want.path)
                &&& !cache.inflight.contains(want.path)
            } by {
                if i > 0 {
                    assert(all[i] == rest[i - 1]);
                }
            }
        }
    }
}

/// Asking for pictures ahead of the window keeps playback and cache together.
pub proof fn law_request_keeps_coherence(
    pb: Playback,
    s: Asking,
    wanted: Seq<Want>,
    taken: Seq<bool>,
    n: int,
)
    requires
        coherent(pb, s.cache),
        0 <= n <= wanted.len(),
        forall|i: int|
            0 <= i < wanted.len() ==> ahead(pb, s.cache).contains((#[trigger] wanted[i]).path),
    ensures
        coherent(pb, asked_all(s, wanted, taken, n).cache),
        asked_all(s, wanted, taken, n).cache.window == s.cache.window,
    decreases n,
{
    if n > 0 {
        law_request_keeps_coherence(pb, s, wanted, taken, n - 1);
        let before = asked_all(s, wanted, taken, n - 1);
        assert(ahead(pb, before.cache) == ahead(pb, s.cache));
        let after = asked(before, wanted[n - 1], taken[n - 1]);
        assert(ahead(pb, after.cache) == ahead(pb, s.cache));
    }
}

pub proof fn lemma_without_first(cache: Cache, n: int)
    requires
        0 <= n <= cache.window.len(),
        cache.vram == window_bytes(cache.window),
    ensures
        ({
            let next = cache.without_first(n);
            &&& next.window == cache.window.skip(n)
            &&& next.vram == window_bytes(next.window)
            &&& next.ready == cache.ready
            &&& next.inflight == cache.inflight
            &&& next.ready_bytes == cache.ready_bytes
            &&& next.epoch == cache.epoch
        }),
    decreases n,
{
    if n == 0 {
        assert(cache.window.skip(0) =~= cache.window);
    } else {
        lemma_window_bytes_remove(cache.window, 0);
        lemma_without_first(cache.without(0), n - 1);
        assert(cache.window.remove(0).skip(n - 1) =~= cache.window.skip(n));
    }
}

/// The advance keeps playback and cache together. It goes through the order
/// without a gap: the pictures that were on display, which are remembered, join
/// those that this cycle has shown.
pub proof fn law_advance_goes_through_the_order(app: App)
    requires
        coherent(app.pb, app.cache),
    ensures
        coherent(app.advanced().pb, app.advanced().cache),
        app.advanced().pb.order == app.pb.order,
        app.shown() > 0 ==> {
            &&& app.advanced().pb.cursor == app.pb.cursor + app.shown()
            &&& app.advanced().pb.last_shown == app.pb.order.subrange(
                app.pb.cursor,
                app.pb.cursor + app.shown(),
            )
        },
        app.shown() > 0 ==> app.advanced().pb.order.take(app.advanced().pb.cursor)
            == app.pb.order.take(app.pb.cursor) + app.advanced().pb.last_shown,
{
    let shown = app.shown();
    if shown != 0 && app.pb.order.len() != 0 {
        lemma_without_first(app.cache, shown);
        let next = app.advanced();
        assert(next.pb.last_shown =~= app.pb.order.subrange(
            app.pb.cursor,
            app.pb.cursor + shown,
        ));
        assert(next.pb.order.take(next.pb.cursor) =~= app.pb.order.take(app.pb.cursor)
            + next.pb.last_shown);
        assert(ahead(next.pb, next.cache) == ahead(app.pb, app.cache));
    }
}

/// Deleting a picture, or failing to, keeps playback and cache together and the
/// pictures that this cycle has shown. A deletion takes the picture out of the
/// order and no other.
pub proof fn law_delete_takes_one_picture(
    app: App,
    target: Seq<char>,
    event: DeleteEvent,
    now: u64,
)
    requires
        coherent(app.pb, app.cache),
    ensures
        ({
            let next = deleted(app, target, event, now).0;
            &&& coherent(next.pb, next.cache)
            &&& keeps_shown(app.pb, next.pb)
            &&& was_moved(event) && app.settings.folder is Some && window_place(
                app.cache,
                target,
            ) is Some ==> {
                &&& next.pb.order.len() == app.pb.order.len() - 1
                &&& forall|p: Seq<char>|
                    #[trigger] next.pb.order.contains(p) <==> app.pb.order.contains(p) && p
                        != target
            }
            &&& !was_moved(event) ==> next.pb == app.pb && next.cache
                == app.cache
        }),
{
    let paths = app.cache.window.map_values(|s: Slot| s.path);
    paths.index_of_first_ensures(target);
    if app.settings.folder is Some && was_moved(event) && window_place(app.cache, target) is Some {
        let i = window_place(app.cache, target)->0;
        assert(paths[i] == app.cache.window[i].path);
        lemma_delete_one(app.pb, app.cache, i);
    }
}

/// The `i`th picture of the window is taken out of it and out of the order.
#[verifier::spinoff_prover]
proof fn lemma_delete_one(pb: Playback, cache: Cache, i: int)
    requires
        coherent(pb, cache),
        0 <= i < cache.window.len(),
    ensures
        ({
            let target = cache.window[i].path;
            let next = Playback { order: pb.order.remove_value(target), ..pb };
            let window = Cache { blocked: false, ..cache.without(i) };
            &&& coherent(next, window.bumped())
            &&& keeps_shown(pb, next)
            &&& next.order.len() == pb.order.len() - 1
            &&& forall|p: Seq<char>|
                #[trigger] next.order.contains(p) <==> pb.order.contains(p) && p != target
        }),
{
    let at = pb.cursor + i;
    let target = cache.window[i].path;
    assert(pb.order[at] == target);
    lemma_take_out(pb.order, at);
    lemma_window_bytes_remove(cache.window, i);
    let rest = pb.order.remove(at);
    assert(rest.take(pb.cursor) =~= pb.order.take(pb.cursor));
    let window = Cache { blocked: false, ..cache.without(i) };
    let next = Playback { order: rest, ..pb };
    lemma_mirrors_without(pb, cache.window, i);
    assert(distinct(next));
    lemma_bumped(next, window);
}

/// What is taken out of the window and out of the order leaves no gap.
proof fn lemma_mirrors_without(pb: Playback, window: Seq<Slot>, i: int)
    requires
        mirrors(pb, window),
        0 <= i < window.len(),
    ensures
        mirrors(Playback { order: pb.order.remove(pb.cursor + i), ..pb }, window.remove(i)),
{
    let rest = pb.order.remove(pb.cursor + i);
    let left = window.remove(i);
    assert forall|k: int| 0 <= k < left.len() implies (#[trigger] left[k]).path == rest[pb.cursor
        + k] by {
        let j = if k < i {
            k
        } else {
            k + 1
        };
        assert(left[k] == window[j]);
    }
}

/// Putting an oversized picture back keeps playback and cache together, and the
/// pictures that this cycle has shown.
pub proof fn law_oversized_keeps_coherence(
    app: App,
    path: Seq<char>,
    event: OversizedEvent,
    now: u64,
)
    requires
        coherent(app.pb, app.cache),
        !app.pb.order.contains(path),
        !pending_paths(app.pb.pending).contains(path),
    ensures
        ({
            let next = oversized_handled(app, path, event, now);
            &&& coherent(next.pb, next.cache)
            &&& coherent(next.order_changed().pb, next.order_changed().cache)
            &&& keeps_shown(app.pb, next.pb)
        }),
{
    let next = oversized_handled(app, path, event, now);
    let order = app.pb.order;
    let end = order.push(path);
    let from = app.pb.cursor + app.cache.window.len();
    assert(end.take(app.pb.cursor) =~= order.take(app.pb.cursor));
    assert(end.skip(from) =~= order.skip(from).push(path));
    assert forall|p: Seq<char>| order.skip(from).contains(p) implies #[trigger] end.skip(
        from,
    ).contains(p) by {
        let k = choose|k: int| 0 <= k < order.skip(from).len() && order.skip(from)[k] == p;
        assert(end.skip(from)[k] == p);
    }
    assert forall|p: Seq<char>| #[trigger] end.contains(p) implies order.contains(p) || p
        == path by {
        let k = choose|k: int| 0 <= k < end.len() && end[k] == p;
        if k < order.len() {
            assert(order[k] == p);
        }
    }
    assert(end.no_duplicates());
    lemma_bumped(next.pb, next.cache);
}

/// The reset to another folder starts out coherent, with nothing shown.
pub proof fn law_reset_starts_coherent(app: App, folder: Seq<char>, order: Seq<Seq<char>>)
    requires
        order.no_duplicates(),
        app.cache.vram == window_bytes(app.cache.window),
    ensures
        ({
            let next = reset_to(app, folder, order);
            &&& coherent(next.pb, next.cache)
            &&& next.pb.cursor == 0
            &&& next.cache.window.len() == 0
        }),
{
    lemma_without_first(app.cache, app.cache.window.len() as int);
    let next = reset_to(app, folder, order);
    assert(next.cache.window =~= Seq::empty());
    assert(total_bytes(Map::<Seq<char>, Picture>::empty()) == 0);
}

/// The end of a frame keeps playback and cache together, and every picture. A
/// new cycle begins only when every picture has been shown, and starts before
/// the first.
pub proof fn law_settle_keeps_coherence(a: App, b: App)
    requires
        coherent(a.pb, a.cache),
        settles_to(a, b),
    ensures
        coherent(b.pb, b.cache),
        forall|p: Seq<char>| #[trigger] b.pb.order.contains(p) <==> a.pb.order.contains(p),
        settled_as(a) is Unchanged ==> keeps_shown(a.pb, b.pb),
        settled_as(a) is CycleBoundary ==> a.pb.order.take(a.pb.cursor) == a.pb.order
            && b.pb.cursor == 0,
{
    assert(total_bytes(Map::<Seq<char>, Picture>::empty()) == 0);
    match settled_as(a) {
        Settle::Unchanged => {
            assert(ahead(b.pb, b.cache) == ahead(a.pb, a.cache));
        },
        Settle::Empty => {
            lemma_without_first(a.cache, a.cache.window.len() as int);
            assert(b.cache.window =~= Seq::empty());
        },
        Settle::CycleBoundary => {
            lemma_rearranged(a.pb.order, b.pb.order);
            assert(a.pb.order.take(a.pb.cursor) =~= a.pb.order);
        },
    }
}

/// The pending files that join the order, and those that go on waiting, are
/// among the pending files, each once, and none does both.
pub proof fn lemma_promoted(pending: Seq<Pending>, stats: Seq<Option<FileStat>>, n: int)
    requires
        pending_paths(pending).no_duplicates(),
        0 <= n <= pending.len(),
    ensures
        ({
            let joined = promoted(pending, stats, n);
            let waiting = pending_paths(unsettled(pending, stats, n));
            &&& joined.no_duplicates()
            &&& waiting.no_duplicates()
            &&& forall|p: Seq<char>|
                #[trigger] joined.contains(p) ==> !waiting.contains(p) && exists|i: int|
                    0 <= i < n && #[trigger] pending_paths(pending)[i] == p
            &&& forall|p: Seq<char>|
                #[trigger] waiting.contains(p) ==> exists|i: int|
                    0 <= i < n && #[trigger] pending_paths(pending)[i] == p
        }),
    decreases n,
{
    if n > 0 {
        lemma_promoted(pending, stats, n - 1);
        let paths = pending_paths(pending);
        let p = pending[n - 1].path;
        assert(paths[n - 1] == p);
        let joined = promoted(pending, stats, n - 1);
        let before = unsettled(pending, stats, n - 1);
        let waiting = pending_paths(before);
        assert(!joined.contains(p));
        assert(!waiting.contains(p));
        if settled(pending[n - 1], stats[n - 1]) {
            lemma_push_members(joined, p);
        } else if let Some(stat) = stats[n - 1] {
            let next = Pending { path: p, size: stat.size, modified: stat.modified };
            assert(pending_paths(before.push(next)) =~= waiting.push(p));
            lemma_push_members(waiting, p);
        }
    } else {
        assert(pending_paths(unsettled(pending, stats, 0)) =~= Seq::empty());
    }
}

/// The files that begin to wait are not known, and each is there once.
proof fn lemma_newcomers(files: Seq<Scanned>, known: Set<Seq<char>>, n: int)
    requires
        0 <= n <= files.len(),
    ensures
        ({
            let fresh = pending_paths(newcomers(files, known, n));
            &&& fresh.no_duplicates()
            &&& forall|p: Seq<char>|
                #[trigger] fresh.contains(p) ==> !known.contains(p) && scan_paths(files).take(
                    n,
                ).contains(p)
        }),
    decreases n,
{
    if n > 0 {
        lemma_newcomers(files, known, n - 1);
        let before = newcomers(files, known, n - 1);
        let fresh = pending_paths(before);
        let paths = scan_paths(files);
        let file = files[n - 1];
        assert(paths.take(n) =~= paths.take(n - 1).push(file.path));
        lemma_push_members(paths.take(n - 1), file.path);
        if !(known.contains(file.path) || paths.take(n - 1).contains(file.path)) {
            if let Some(stat) = file.stat {
                let next = Pending { path: file.path, size: stat.size, modified: stat.modified };
                assert(pending_paths(before.push(next)) =~= fresh.push(file.path));
                lemma_push_members(fresh, file.path);
            }
        }
    } else {
        assert(pending_paths(newcomers(files, known, 0)) =~= Seq::empty());
    }
}

/// Pending files that are kept by their path.
proof fn lemma_pending_filter(files: Seq<Pending>, found: Set<Seq<char>>)
    requires
        pending_paths(files).no_duplicates(),
    ensures
        ({
            let kept = pending_paths(files.filter(|f: Pending| found.contains(f.path)));
            &&& kept.no_duplicates()
            &&& forall|p: Seq<char>|
                #[trigger] kept.contains(p) ==> pending_paths(files).contains(p)
        }),
{
    let keep = |f: Pending| found.contains(f.path);
    let rest = files.filter(keep);
    let paths = pending_paths(files);
    let kept = pending_paths(rest);
    lemma_filter_members(files, keep);
    assert(files.no_duplicates()) by {
        assert forall|i: int, j: int|
            0 <= i < files.len() && 0 <= j < files.len() && i != j implies files[i]
            != files[j] by {
            assert(paths[i] != paths[j]);
        }
    }
    assert forall|i: int, j: int| 0 <= i < kept.len() && 0 <= j < kept.len() && i != j implies
        kept[i] != kept[j] by {
        assert(rest.contains(rest[i]) && rest.contains(rest[j]));
        let a = choose|a: int| 0 <= a < files.len() && files[a] == rest[i];
        let b = choose|b: int| 0 <= b < files.len() && files[b] == rest[j];
        assert(rest[i] != rest[j]);
        assert(paths[a] != paths[b]);
    }
    assert forall|p: Seq<char>| #[trigger] kept.contains(p) implies paths.contains(p) by {
        let i = choose|i: int| 0 <= i < kept.len() && kept[i] == p;
        assert(rest.contains(rest[i]));
        let a = choose|a: int| 0 <= a < files.len() && files[a] == rest[i];
        assert(paths[a] == p);
    }
}

/// A state in the course of a sweep, held against the one before it.
spec fn sweeps(s: Sweep, order: Seq<Seq<char>>, cache: Cache, cursor: int, floor: int) -> bool {
    &&& s.order.no_duplicates()
    &&& 0 <= cursor
    &&& 0 <= floor <= s.cache.window.len()
    &&& cursor + s.cache.window.len() <= s.order.len()
    &&& forall|i: int|
        0 <= i < s.cache.window.len() ==> (#[trigger] s.cache.window[i]).path == s.order[cursor
            + i]
    &&& s.order.take(cursor) == order.take(cursor)
    &&& forall|p: Seq<char>| #[trigger] s.order.contains(p) ==> order.contains(p)
    &&& s.cache.vram == window_bytes(s.cache.window)
    &&& s.cache.window.take(floor) == cache.window.take(floor)
    &&& s.cache.ready == cache.ready
    &&& s.cache.inflight == cache.inflight
    &&& s.cache.ready_bytes == cache.ready_bytes
    &&& !s.changed ==> s.order == order && s.cache == cache
}

proof fn lemma_swept_window(
    s: Sweep,
    order: Seq<Seq<char>>,
    cache: Cache,
    cursor: int,
    found: Set<Seq<char>>,
    floor: int,
    k: int,
)
    requires
        sweeps(s, order, cache, cursor, floor),
        k <= s.cache.window.len(),
        forall|i: int|
            floor <= i && k <= i < s.cache.window.len() ==> found.contains(
                (#[trigger] s.cache.window[i]).path,
            ),
    ensures
        ({
            let end = swept_window(s, cursor, found, floor, k);
            &&& sweeps(end, order, cache, cursor, floor)
            &&& forall|i: int|
                floor <= i < end.cache.window.len() ==> found.contains(
                    (#[trigger] end.cache.window[i]).path,
                )
        }),
    decreases k,
{
    if k > floor && k > 0 {
        let i = k - 1;
        let path = s.cache.window[i].path;
        if found.contains(path) {
            lemma_swept_window(s, order, cache, cursor, found, floor, i);
        } else {
            let rest = s.order.remove(cursor + i);
            lemma_take_out(s.order, cursor + i);
            lemma_window_bytes_remove(s.cache.window, i);
            let next = Sweep {
                order: rest,
                cache: Cache { blocked: false, ..s.cache.without(i) },
                changed: true,
            };
            let window = next.cache.window;
            assert(rest.take(cursor) =~= s.order.take(cursor));
            assert(window.take(floor) =~= s.cache.window.take(floor));
            assert forall|j: int| 0 <= j < window.len() implies (#[trigger] window[j]).path
                == rest[cursor + j] by {
                let o = if j < i {
                    j
                } else {
                    j + 1
                };
                assert(window[j] == s.cache.window[o]);
            }
            assert forall|j: int| floor <= j && i <= j < window.len() implies found.contains(
                (#[trigger] window[j]).path,
            ) by {
                assert(window[j] == s.cache.window[j + 1]);
            }
            lemma_swept_window(next, order, cache, cursor, found, floor, i);
        }
    }
}

/// A look at the folder keeps playback and cache together, the pictures that
/// this cycle has shown, and the pictures on display. Behind those, the order
/// holds only pictures that are there. `order` is the order afterwards, shuffled
/// behind the window where pictures have joined it.
#[verifier::rlimit(40)]
pub proof fn law_rescan_keeps_coherence(
    pb: Playback,
    cache: Cache,
    files: Seq<Scanned>,
    stats: Seq<Option<FileStat>>,
    display_count: int,
    order: Seq<Seq<char>>,
)
    requires
        coherent(pb, cache),
        stats.len() == pb.pending.len(),
        ({
            let (next, window, _) = rescanned(pb, cache, files, stats, display_count);
            let behind = next.cursor + window.window.len();
            let joined = promoted(pb.pending, stats, pb.pending.len() as int);
            if joined.len() == 0 {
                order == next.order
            } else {
                tail_shuffled(next.order, order, behind)
            }
        }),
    ensures
        ({
            let (next, window, changed) = rescanned(pb, cache, files, stats, display_count);
            let end = Playback { order, ..next };
            let shown = displayed(cache, display_count);
            &&& coherent(
                end,
                if changed {
                    window.bumped()
                } else {
                    window
                },
            )
            &&& keeps_shown(pb, end)
            &&& window.window.len() >= shown
            &&& window.window.take(shown) == cache.window.take(shown)
            &&& forall|k: int|
                pb.cursor + shown <= k < order.len() ==> scan_paths(files).contains(
                    #[trigger] order[k],
                )
        }),
{
    let found = scan_paths(files).to_set();
    let known = pb.order.to_set() + pending_paths(pb.pending).to_set();
    let count = pb.pending.len() as int;
    let joined = promoted(pb.pending, stats, count);
    let changing = unsettled(pb.pending, stats, count);
    let fresh = newcomers(files, known, files.len() as int);
    let paths = pending_paths(pb.pending);
    lemma_promoted(pb.pending, stats, count);
    lemma_newcomers(files, known, files.len() as int);
    let first = pb.order + joined;
    assert(first.no_duplicates()) by {
        assert forall|i: int, j: int|
            0 <= i < pb.order.len() && 0 <= j < joined.len() implies pb.order[i] != joined[j] by {
            assert(pb.order.contains(pb.order[i]));
            assert(joined.contains(joined[j]));
            let a = choose|a: int| 0 <= a < count && #[trigger] paths[a] == joined[j];
            assert(paths.contains(joined[j]));
        }
        lemma_no_dup_in_concat(pb.order, joined);
    }
    assert(first.take(pb.cursor) =~= pb.order.take(pb.cursor));
    let floor = displayed(cache, display_count);
    let start = Sweep { order: first, cache, changed: false };
    lemma_swept_window(
        start,
        first,
        cache,
        pb.cursor,
        found,
        floor,
        cache.window.len() as int,
    );
    let s = swept_window(start, pb.cursor, found, floor, cache.window.len() as int);
    let from = pb.cursor + s.cache.window.len();
    let tail = s.order.skip(from);
    let keep = |p: Seq<char>| found.contains(p);
    lemma_filter_members(tail, keep);
    let kept = tail.filter(keep);
    tail.lemma_filter_len(keep);
    let swept = swept_tail(s.order, found, from);
    if from >= s.order.len() {
        assert(kept =~= Seq::empty());
        assert(swept =~= s.order.take(from) + kept);
    }
    assert(swept == s.order.take(from) + kept);
    assert(tail.no_duplicates());
    let head = s.order.take(from);
    assert forall|p: Seq<char>| #[trigger] kept.contains(p) implies s.order.contains(p)
        && !head.contains(p) by {
        assert(tail.contains(p));
        let k = choose|k: int| 0 <= k < tail.len() && tail[k] == p;
        assert(s.order[from + k] == p);
        if head.contains(p) {
            let j = choose|j: int| 0 <= j < head.len() && head[j] == p;
            assert(s.order[j] == p);
        }
    }
    assert(swept.no_duplicates()) by {
        assert forall|i: int, j: int| 0 <= i < head.len() && 0 <= j < kept.len() implies head[i]
            != kept[j] by {
            assert(kept.contains(kept[j]));
            assert(head.contains(head[i]));
        }
        assert(head.no_duplicates());
        lemma_no_dup_in_concat(head, kept);
    }
    assert forall|p: Seq<char>| #[trigger] swept.contains(p) implies first.contains(p) by {
        let k = choose|k: int| 0 <= k < swept.len() && swept[k] == p;
        if k < head.len() {
            assert(s.order[k] == p);
            assert(s.order.contains(p));
        } else {
            assert(kept[k - from] == p);
            assert(kept.contains(p));
        }
    }
    let (next, window, changed) = rescanned(pb, cache, files, stats, display_count);
    assert(next.order == swept);
    assert(swept.take(from) =~= head);
    assert(swept.skip(from) =~= kept);
    // The shuffle behind the window.
    assert(order.take(from) == head && rearranged(kept, order.skip(from)));
    lemma_rearranged(kept, order.skip(from));
    let end = order.skip(from);
    assert(order =~= head + end);
    assert(order.no_duplicates()) by {
        assert forall|i: int, j: int| 0 <= i < head.len() && 0 <= j < end.len() implies head[i]
            != end[j] by {
            assert(end.contains(end[j]));
            assert(kept.contains(end[j]));
            assert(head.contains(head[i]));
        }
        assert(head.no_duplicates());
        lemma_no_dup_in_concat(head, end);
    }
    assert forall|p: Seq<char>| #[trigger] order.contains(p) implies first.contains(p) by {
        let k = choose|k: int| 0 <= k < order.len() && order[k] == p;
        if k < head.len() {
            assert(s.order[k] == p);
            assert(s.order.contains(p));
        } else {
            assert(end[k - from] == p);
            assert(end.contains(p));
            assert(kept.contains(p));
        }
    }
    let pb_end = Playback { order, ..next };
    assert(order.take(pb.cursor) =~= head.take(pb.cursor));
    assert(s.order.take(pb.cursor) =~= head.take(pb.cursor));
    assert(keeps_shown(pb, pb_end));
    assert(mirrors(pb_end, window.window)) by {
        assert forall|i: int| 0 <= i < window.window.len() implies (
        #[trigger] window.window[i]).path == order[pb.cursor + i] by {
            assert(head[pb.cursor + i] == s.order[pb.cursor + i]);
            assert(window.window[i] == s.cache.window[i]);
        }
    }
    // The pending files.
    let waiting = changing + fresh;
    let a = pending_paths(changing);
    let b = pending_paths(fresh);
    assert(pending_paths(waiting) =~= a + b);
    assert(pending_paths(waiting).no_duplicates()) by {
        assert forall|i: int, j: int| 0 <= i < a.len() && 0 <= j < b.len() implies a[i] != b[j] by {
            assert(a.contains(a[i]));
            assert(b.contains(b[j]));
            let c = choose|c: int| 0 <= c < count && #[trigger] paths[c] == a[i];
            assert(paths.to_set().contains(a[i]));
        }
        lemma_no_dup_in_concat(a, b);
    }
    lemma_pending_filter(waiting, found);
    assert(distinct(pb_end)) by {
        let pending = pending_paths(pb_end.pending);
        assert forall|p: Seq<char>| order.contains(p) implies !(#[trigger] pending.contains(p)) by {
            if pending.contains(p) {
                assert(pending_paths(waiting).contains(p));
                let i = choose|i: int|
                    0 <= i < pending_paths(waiting).len() && pending_paths(waiting)[i] == p;
                assert(first.contains(p));
                let k = choose|k: int| 0 <= k < first.len() && first[k] == p;
                if k < pb.order.len() {
                    assert(pb.order[k] == p);
                    assert(pb.order.contains(p));
                    assert(pb.order.to_set().contains(p));
                } else {
                    assert(joined[k - pb.order.len()] == p);
                    assert(joined.contains(p));
                    let c = choose|c: int| 0 <= c < count && #[trigger] paths[c] == p;
                    assert(paths.to_set().contains(p));
                }
                if i < a.len() {
                    assert(a[i] == p);
                    assert(a.contains(p));
                    let c = choose|c: int| 0 <= c < count && #[trigger] paths[c] == p;
                    assert(paths.contains(p));
                } else {
                    assert(b[i - a.len()] == p);
                    assert(b.contains(p));
                }
            }
        }
    }
    if changed {
        lemma_bumped(pb_end, window);
    } else {
        assert(joined =~= Seq::empty());
        assert(first =~= pb.order);
        assert(kept =~= tail) by {
            lemma_filter_all(tail, keep);
        }
        assert(order =~= pb.order);
        assert(ahead(pb_end, window) == ahead(pb, cache));
    }
    assert forall|k: int| pb.cursor + floor <= k < order.len() implies scan_paths(files).contains(
        #[trigger] order[k],
    ) by {
        if k < from {
            let i = k - pb.cursor;
            assert(window.window[i].path == order[k]);
            assert(found.contains(s.cache.window[i].path));
        } else {
            assert(end[k - from] == order[k]);
            assert(end.contains(order[k]));
            assert(kept.contains(order[k]));
        }
    }
}

/// A filter that takes nothing out.
proof fn lemma_filter_all<A>(s: Seq<A>, keep: spec_fn(A) -> bool)
    requires
        s.filter(keep).len() == s.len(),
    ensures
        s.filter(keep) == s,
    decreases s.len(),
{
    reveal(Seq::filter);
    if s.len() > 0 {
        let head = s.drop_last();
        head.lemma_filter_len(keep);
        lemma_filter_all(head, keep);
        assert(s =~= head.push(s.last()));
    } else {
        assert(s.filter(keep) =~= s);
    }
}

/// A start with a play order without duplicates and a cursor in it is coherent.
pub proof fn law_start_is_coherent(
    order: Seq<Seq<char>>,
    cursor: int,
    cycle: u32,
    last_shown: Seq<Seq<char>>,
)
    requires
        order.no_duplicates(),
        0 <= cursor <= order.len(),
    ensures
        coherent(restored(order, cursor, cycle, last_shown), Cache::empty()),
{
    let pb = restored(order, cursor, cycle, last_shown);
    assert(pending_paths(pb.pending) =~= Seq::empty());
    assert(total_bytes(Map::<Seq<char>, Picture>::empty()) == 0);
}

/// From one state to the next within a cycle: either the pictures shown stay
/// the same, or the ones that were on display join them.
pub open spec fn goes_on(a: Playback, b: Playback) -> bool {
    ||| keeps_shown(a, b)
    ||| {
        &&& b.cursor == a.cursor + b.last_shown.len()
        &&& b.order.take(b.cursor) == a.order.take(a.cursor) + b.last_shown
    }
}

/// The pictures shown from the first to the `n`th of a list of states.
pub open spec fn shown_until(states: Seq<Playback>, n: int) -> Seq<Seq<char>>
    decreases n,
{
    if n <= 1 {
        Seq::empty()
    } else if states[n - 1].cursor == states[n - 2].cursor {
        shown_until(states, n - 1)
    } else {
        shown_until(states, n - 1) + states[n - 1].last_shown
    }
}

/// No picture is shown twice in a cycle, and when the cursor has come to the end
/// of the order, as it must before the next cycle begins, every picture of the
/// order has been shown.
pub proof fn law_cycle_shows_each_picture_once(states: Seq<Playback>, n: int)
    requires
        1 <= n <= states.len(),
        states[0].cursor == 0,
        forall|i: int|
            0 <= i < states.len() ==> (#[trigger] states[i]).order.no_duplicates() && 0
                <= states[i].cursor <= states[i].order.len(),
        forall|i: int| 0 < i < states.len() ==> goes_on(states[i - 1], #[trigger] states[i]),
    ensures
        shown_until(states, n) == states[n - 1].order.take(states[n - 1].cursor),
        shown_until(states, n).no_duplicates(),
        states[n - 1].cursor >= states[n - 1].order.len() ==> shown_until(states, n)
            == states[n - 1].order,
    decreases n,
{
    if n == 1 {
        assert(states[0].order.take(0) =~= Seq::empty());
    } else {
        law_cycle_shows_each_picture_once(states, n - 1);
        let a = states[n - 2];
        let b = states[n - 1];
        assert(goes_on(a, b));
        if a.cursor == b.cursor && !keeps_shown(a, b) {
            assert(b.last_shown =~= Seq::empty());
            assert(a.order.take(a.cursor) + b.last_shown =~= a.order.take(a.cursor));
        }
    }
    let last = states[n - 1];
    assert(last.order.no_duplicates());
    if last.cursor >= last.order.len() {
        assert(last.order.take(last.cursor) =~= last.order);
    }
}

/// The advance goes on within the cycle: it adds to the pictures shown those
/// that were on display.
pub proof fn law_advance_goes_on(app: App)
    requires
        coherent(app.pb, app.cache),
    ensures
        goes_on(app.pb, app.advanced().pb),
{
    law_advance_goes_through_the_order(app);
}

/// A file that is seen for the first time waits; it is not in the order yet.
pub proof fn law_new_file_waits(
    pb: Playback,
    cache: Cache,
    files: Seq<Scanned>,
    stats: Seq<Option<FileStat>>,
    display_count: int,
    i: int,
    stat: FileStat,
)
    requires
        coherent(pb, cache),
        stats.len() == pb.pending.len(),
        0 <= i < files.len(),
        files[i].stat == Some(stat),
        scan_paths(files).no_duplicates(),
        !pb.order.contains(files[i].path),
        !pending_paths(pb.pending).contains(files[i].path),
    ensures
        ({
            let (next, _, _) = rescanned(pb, cache, files, stats, display_count);
            &&& next.pending.contains(
                Pending { path: files[i].path, size: stat.size, modified: stat.modified },
            )
            &&& !next.order.contains(files[i].path)
        }),
{
    let found = scan_paths(files).to_set();
    let known = pb.order.to_set() + pending_paths(pb.pending).to_set();
    let file = Pending { path: files[i].path, size: stat.size, modified: stat.modified };
    let fresh = newcomers(files, known, files.len() as int);
    lemma_newcomer(files, known, files.len() as int, i, stat);
    let changing = unsettled(pb.pending, stats, pb.pending.len() as int);
    let waiting = changing + fresh;
    let k = choose|k: int| 0 <= k < fresh.len() && fresh[k] == file;
    assert(waiting[changing.len() + k] == file);
    assert(scan_paths(files)[i] == file.path);
    lemma_filter_members(waiting, |f: Pending| found.contains(f.path));
    let (next, window, _) = rescanned(pb, cache, files, stats, display_count);
    lemma_tail_same(next.order, next.cursor + window.window.len());
    law_rescan_keeps_coherence(pb, cache, files, stats, display_count, next.order);
    assert(next == (Playback { order: next.order, ..next }));
    assert(next.pending.contains(file));
    let j = choose|j: int| 0 <= j < next.pending.len() && next.pending[j] == file;
    assert(pending_paths(next.pending)[j] == file.path);
    assert(pending_paths(next.pending).contains(file.path));
}

pub proof fn lemma_tail_same(order: Seq<Seq<char>>, from: int)
    ensures
        tail_shuffled(order, order, from),
{
}

proof fn lemma_newcomer(
    files: Seq<Scanned>,
    known: Set<Seq<char>>,
    n: int,
    i: int,
    stat: FileStat,
)
    requires
        0 <= i < n <= files.len(),
        files[i].stat == Some(stat),
        scan_paths(files).no_duplicates(),
        !known.contains(files[i].path),
    ensures
        newcomers(files, known, n).contains(
            Pending { path: files[i].path, size: stat.size, modified: stat.modified },
        ),
    decreases n,
{
    let file = Pending { path: files[i].path, size: stat.size, modified: stat.modified };
    let before = newcomers(files, known, n - 1);
    let paths = scan_paths(files);
    if i == n - 1 {
        assert(!paths.take(n - 1).contains(paths[i]));
        assert(newcomers(files, known, n).last() == file);
    } else {
        lemma_newcomer(files, known, n - 1, i, stat);
        let k = choose|k: int| 0 <= k < before.len() && before[k] == file;
        assert(newcomers(files, known, n)[k] == file);
    }
}

/// A waiting file that is as it was at the look before, and is there, joins the
/// order; one that has changed does not.
pub proof fn law_settled_file_joins(
    pb: Playback,
    cache: Cache,
    files: Seq<Scanned>,
    stats: Seq<Option<FileStat>>,
    display_count: int,
    i: int,
)
    requires
        coherent(pb, cache),
        stats.len() == pb.pending.len(),
        0 <= i < pb.pending.len(),
    ensures
        ({
            let (next, _, changed) = rescanned(pb, cache, files, stats, display_count);
            let path = pb.pending[i].path;
            &&& next.order.contains(path) <==> settled(pb.pending[i], stats[i]) && scan_paths(
                files,
            ).contains(path)
            &&& settled(pb.pending[i], stats[i]) ==> changed
        }),
{
    let path = pb.pending[i].path;
    let count = pb.pending.len() as int;
    let joined = promoted(pb.pending, stats, count);
    let paths = pending_paths(pb.pending);
    let found = scan_paths(files).to_set();
    let first = pb.order + joined;
    assert(paths[i] == path);
    assert(paths.contains(path));
    assert(!pb.order.contains(path));
    lemma_promoted(pb.pending, stats, count);
    lemma_promoted_one(pb.pending, stats, count, i);
    assert(first.contains(path) <==> joined.contains(path)) by {
        if first.contains(path) {
            let k = choose|k: int| 0 <= k < first.len() && first[k] == path;
            if k < pb.order.len() {
                assert(pb.order[k] == path);
            } else {
                assert(joined[k - pb.order.len()] == path);
            }
        }
        if joined.contains(path) {
            let k = choose|k: int| 0 <= k < joined.len() && joined[k] == path;
            assert(first[pb.order.len() + k] == path);
        }
    }
    assert(first.no_duplicates()) by {
        assert forall|a: int, b: int|
            0 <= a < pb.order.len() && 0 <= b < joined.len() implies pb.order[a] != joined[b] by {
            assert(pb.order.contains(pb.order[a]));
            assert(joined.contains(joined[b]));
            let c = choose|c: int| 0 <= c < count && #[trigger] paths[c] == joined[b];
            assert(paths.contains(joined[b]));
        }
        lemma_no_dup_in_concat(pb.order, joined);
    }
    assert(first.take(pb.cursor) =~= pb.order.take(pb.cursor));
    let floor = displayed(cache, display_count);
    let start = Sweep { order: first, cache, changed: false };
    let len = cache.window.len() as int;
    lemma_swept_window(start, first, cache, pb.cursor, found, floor, len);
    let s = swept_window(start, pb.cursor, found, floor, len);
    let from = pb.cursor + s.cache.window.len();
    let tail = s.order.skip(from);
    let keep = |p: Seq<char>| found.contains(p);
    lemma_filter_members(tail, keep);
    let (next, window, changed) = rescanned(pb, cache, files, stats, display_count);
    let head = s.order.take(from);
    if from >= s.order.len() {
        assert(tail.filter(keep) =~= Seq::empty());
        assert(s.order =~= head + tail.filter(keep));
    }
    assert(next.order == head + tail.filter(keep));
    // The window does not hold the path: it was not in the order.
    lemma_sweep_keeps_others(start, first, cache, pb.cursor, found, floor, len, path);
    assert(!head.contains(path)) by {
        if head.contains(path) {
            let k = choose|k: int| 0 <= k < head.len() && head[k] == path;
            if k < pb.cursor {
                assert(s.order.take(pb.cursor)[k] == path);
                assert(pb.order.take(pb.cursor)[k] == path);
                assert(pb.order[k] == path);
            } else {
                assert(s.cache.window[k - pb.cursor].path == path);
            }
        }
    }
    if next.order.contains(path) {
        let k = choose|k: int| 0 <= k < next.order.len() && next.order[k] == path;
        if k < head.len() {
            assert(head[k] == path);
        } else {
            assert(tail.filter(keep)[k - head.len()] == path);
            assert(tail.filter(keep).contains(path));
            assert(tail.contains(path));
            let j = choose|j: int| 0 <= j < tail.len() && tail[j] == path;
            assert(s.order[from + j] == path);
            assert(s.order.contains(path));
        }
    }
    if settled(pb.pending[i], stats[i]) && scan_paths(files).contains(path) {
        assert(s.order.contains(path));
        let k = choose|k: int| 0 <= k < s.order.len() && s.order[k] == path;
        if k < from {
            assert(head[k] == path);
        }
        assert(tail[k - from] == path);
        assert(tail.filter(keep).contains(path));
        let j = choose|j: int|
            0 <= j < tail.filter(keep).len() && tail.filter(keep)[j] == path;
        assert(next.order[head.len() + j] == path);
    }
    if settled(pb.pending[i], stats[i]) {
        assert(joined.contains(path));
    }
}

/// The pending file at one place joins the order if and only if it is settled.
proof fn lemma_promoted_one(pending: Seq<Pending>, stats: Seq<Option<FileStat>>, n: int, i: int)
    requires
        pending_paths(pending).no_duplicates(),
        0 <= i < n <= pending.len(),
    ensures
        promoted(pending, stats, n).contains(pending[i].path) <==> settled(pending[i], stats[i]),
    decreases n,
{
    let path = pending[i].path;
    let before = promoted(pending, stats, n - 1);
    let paths = pending_paths(pending);
    assert(paths[i] == path && paths[n - 1] == pending[n - 1].path);
    lemma_push_members(before, pending[n - 1].path);
    if i == n - 1 {
        lemma_promoted(pending, stats, n - 1);
        if before.contains(path) {
            let c = choose|c: int| 0 <= c < n - 1 && #[trigger] paths[c] == path;
        }
    } else {
        lemma_promoted_one(pending, stats, n - 1, i);
    }
}

/// A sweep of the window takes nothing else out of the order.
proof fn lemma_sweep_keeps_others(
    s: Sweep,
    order: Seq<Seq<char>>,
    cache: Cache,
    cursor: int,
    found: Set<Seq<char>>,
    floor: int,
    k: int,
    path: Seq<char>,
)
    requires
        sweeps(s, order, cache, cursor, floor),
        k <= s.cache.window.len(),
        forall|i: int|
            0 <= i < s.cache.window.len() ==> (#[trigger] s.cache.window[i]).path != path,
    ensures
        ({
            let end = swept_window(s, cursor, found, floor, k);
            &&& s.order.contains(path) ==> end.order.contains(path)
            &&& forall|i: int|
                0 <= i < end.cache.window.len() ==> (#[trigger] end.cache.window[i]).path != path
        }),
    decreases k,
{
    if k > floor && k > 0 {
        let i = k - 1;
        let gone = s.cache.window[i].path;
        if found.contains(gone) {
            lemma_sweep_keeps_others(s, order, cache, cursor, found, floor, i, path);
        } else {
            lemma_take_out(s.order, cursor + i);
            let rest = s.order.remove(cursor + i);
            let next = Sweep {
                order: rest,
                cache: Cache { blocked: false, ..s.cache.without(i) },
                changed: true,
            };
            lemma_window_bytes_remove(s.cache.window, i);
            let window = next.cache.window;
            assert(rest.take(cursor) =~= s.order.take(cursor));
            assert(window.take(floor) =~= s.cache.window.take(floor));
            assert forall|j: int| 0 <= j < window.len() implies (#[trigger] window[j]).path
                == rest[cursor + j] && window[j].path != path by {
                let o = if j < i {
                    j
                } else {
                    j + 1
                };
                assert(window[j] == s.cache.window[o]);
            }
            lemma_sweep_keeps_others(next, order, cache, cursor, found, floor, i, path);
        }
    }
}

/// A look at the folder takes out of the order only pictures that are gone:
/// every path of the old order that the scan holds is in the new one. `order` is
/// the order afterwards, shuffled behind the window where pictures have joined
/// it.
pub proof fn law_rescan_keeps_what_is_there(
    pb: Playback,
    cache: Cache,
    files: Seq<Scanned>,
    stats: Seq<Option<FileStat>>,
    display_count: int,
    order: Seq<Seq<char>>,
    path: Seq<char>,
)
    requires
        mirrors(pb, cache.window),
        ({
            let (next, window, _) = rescanned(pb, cache, files, stats, display_count);
            let joined = promoted(pb.pending, stats, pb.pending.len() as int);
            if joined.len() == 0 {
                order == next.order
            } else {
                tail_shuffled(next.order, order, next.cursor + window.window.len())
            }
        }),
        pb.order.contains(path),
        scan_paths(files).contains(path),
    ensures
        order.contains(path),
{
    let found = scan_paths(files).to_set();
    let joined = promoted(pb.pending, stats, pb.pending.len() as int);
    let first = pb.order + joined;
    let floor = displayed(cache, display_count);
    let start = Sweep { order: first, cache, changed: false };
    let len = cache.window.len() as int;
    let s = swept_window(start, pb.cursor, found, floor, len);
    let at = choose|at: int| 0 <= at < pb.order.len() && pb.order[at] == path;
    assert(first[at] == path);
    lemma_sweep_keeps_found(start, pb.cursor, found, floor, len, path);
    let from = pb.cursor + s.cache.window.len();
    let tail = s.order.skip(from);
    let keep = |p: Seq<char>| found.contains(p);
    lemma_filter_members(tail, keep);
    let swept = swept_tail(s.order, found, from);
    let k = choose|k: int| 0 <= k < s.order.len() && s.order[k] == path;
    assert(swept.contains(path)) by {
        if from < s.order.len() {
            let head = s.order.take(from);
            let kept = tail.filter(keep);
            if k < from {
                assert(head[k] == path);
                assert((head + kept)[k] == path);
            } else {
                assert(tail[k - from] == path);
                assert(kept.contains(path));
                let j = choose|j: int| 0 <= j < kept.len() && kept[j] == path;
                assert((head + kept)[from + j] == path);
            }
        }
    }
    if joined.len() > 0 && from < swept.len() {
        let m = choose|m: int| 0 <= m < swept.len() && swept[m] == path;
        if m < from {
            assert(order.take(from)[m] == path);
            assert(order[m] == path);
        } else {
            lemma_rearranged(swept.skip(from), order.skip(from));
            assert(swept.skip(from)[m - from] == path);
            assert(order.skip(from).contains(path));
            let j = choose|j: int| 0 <= j < order.skip(from).len() && order.skip(from)[j] == path;
            assert(order[from + j] == path);
        }
    }
}

/// A sweep of the window keeps what is found in the order.
proof fn lemma_sweep_keeps_found(
    s: Sweep,
    cursor: int,
    found: Set<Seq<char>>,
    floor: int,
    k: int,
    path: Seq<char>,
)
    requires
        0 <= cursor,
        k <= s.cache.window.len(),
        s.order.contains(path),
        found.contains(path),
    ensures
        swept_window(s, cursor, found, floor, k).order.contains(path),
        swept_window(s, cursor, found, floor, k).cache.window.len() <= s.cache.window.len(),
    decreases k,
{
    if k > floor && k > 0 {
        let i = k - 1;
        let gone = s.cache.window[i].path;
        if found.contains(gone) {
            lemma_sweep_keeps_found(s, cursor, found, floor, i, path);
        } else {
            let rest = if cursor + i < s.order.len() && s.order[cursor + i] == gone {
                s.order.remove(cursor + i)
            } else {
                s.order.remove_value(gone)
            };
            s.order.index_of_first_ensures(gone);
            let at = choose|at: int| 0 <= at < s.order.len() && s.order[at] == path;
            if cursor + i < s.order.len() && s.order[cursor + i] == gone {
                lemma_other_stays(s.order, cursor + i, at);
            } else if s.order.index_of_first(gone) is Some {
                lemma_other_stays(s.order, s.order.index_of_first(gone)->0, at);
            }
            let next = Sweep {
                order: rest,
                cache: Cache { blocked: false, ..s.cache.without(i) },
                changed: true,
            };
            lemma_sweep_keeps_found(next, cursor, found, floor, i, path);
        }
    }
}

/// Taking one place out keeps what stands in another.
proof fn lemma_other_stays(order: Seq<Seq<char>>, i: int, at: int)
    requires
        0 <= i < order.len(),
        0 <= at < order.len(),
        i != at,
    ensures
        order.remove(i).contains(order[at]),
{
    let j = if at < i {
        at
    } else {
        at - 1
    };
    assert(order.remove(i)[j] == order[at]);
}

/// The results of the current epoch are for pictures that are not in the order
/// up to the end of the window.
pub open spec fn all_behind(pb: Playback, cache: Cache, arrivals: Seq<Arrived>) -> bool {
    forall|i: int|
        0 <= i < arrivals.len() && (#[trigger] arrivals[i]).epoch == cache.epoch ==> !pb.order.take(
            pb.cursor + cache.window.len(),
        ).contains(arrivals[i].path)
}

/// A refill keeps the window a mirror of the order without a gap, whatever
/// results come for pictures behind it.
pub proof fn law_refill_keeps_the_mirror(f: Frame, arrivals: Seq<Arrived>, display_count: int)
    requires
        mirrors(f.pb, f.cache.window),
        all_behind(f.pb, f.cache, arrivals),
    ensures
        ({
            let g = collected_all(f, arrivals, arrivals.len() as int);
            mirrors(g.pb, refilled(g, display_count).window)
        }),
{
    lemma_collect_keeps_head(f, arrivals, arrivals.len() as int);
    let g = collected_all(f, arrivals, arrivals.len() as int);
    let from = f.pb.cursor + f.cache.window.len();
    assert(mirrors(g.pb, g.cache.window)) by {
        assert forall|i: int| 0 <= i < g.cache.window.len() implies (
        #[trigger] g.cache.window[i]).path == g.pb.order[g.pb.cursor + i] by {
            assert(g.pb.order.take(from)[g.pb.cursor + i] == f.pb.order.take(from)[f.pb.cursor
                + i]);
        }
    }
    lemma_placed_mirrors(g.pb, g.cache, display_count, 0);
}

/// Results for pictures behind the window leave the order as it is up to there.
proof fn lemma_collect_keeps_head(f: Frame, arrivals: Seq<Arrived>, n: int)
    requires
        mirrors(f.pb, f.cache.window),
        all_behind(f.pb, f.cache, arrivals),
        0 <= n <= arrivals.len(),
    ensures
        ({
            let g = collected_all(f, arrivals, n);
            let from = f.pb.cursor + f.cache.window.len();
            &&& g.cache.window == f.cache.window
            &&& g.cache.epoch == f.cache.epoch
            &&& g.pb.cursor == f.pb.cursor
            &&& from <= g.pb.order.len()
            &&& g.pb.order.take(from) == f.pb.order.take(from)
        }),
    decreases n,
{
    if n > 0 {
        lemma_collect_keeps_head(f, arrivals, n - 1);
        let g = collected_all(f, arrivals, n - 1);
        let a = arrivals[n - 1];
        let h = collected(g, a);
        let from = f.pb.cursor + f.cache.window.len();
        let head = g.pb.order.take(from);
        if a.epoch == f.cache.epoch {
            assert(!head.contains(a.path));
            g.pb.order.index_of_first_ensures(a.path);
            let rest = g.pb.order.remove_value(a.path);
            if let Some(i) = g.pb.order.index_of_first(a.path) {
                if i < from {
                    assert(head[i] == a.path);
                }
            }
            assert(rest.take(from) =~= head);
            assert(rest.push(a.path).take(from) =~= head);
        }
    }
}

proof fn lemma_placed_mirrors(pb: Playback, cache: Cache, display_count: int, uploads: int)
    requires
        mirrors(pb, cache.window),
    ensures
        mirrors(pb, placed(pb, cache, display_count, uploads).window),
    decreases pb.order.len() - pb.cursor - cache.window.len(),
{
    let next = pb.cursor + cache.window.len();
    let path = pb.order[next];
    let on_display = cache.window.len() < display_count;
    if !(0 <= next < pb.order.len()) || !cache.ready.contains_key(path) {
    } else if !on_display && cache.vram + cache.ready[path].bytes > VRAM_LIMIT {
    } else if !on_display && uploads >= MAX_UPLOADS_PER_FRAME {
    } else {
        lemma_placed_mirrors(
            pb,
            with_placed(cache, path),
            display_count,
            if on_display {
                uploads
            } else {
                uploads + 1
            },
        );
    }
}

/// A refill keeps both byte counts exact, evicts nothing, keeps the oversized
/// pictures found before, and touches of playback only the order and the
/// failures.
pub proof fn law_refill_keeps_accounts(f: Frame, arrivals: Seq<Arrived>, display_count: int)
    requires
        accounted(f.cache),
        !f.changed,
    ensures
        ({
            let g = collected_all(f, arrivals, arrivals.len() as int);
            let end = refilled(g, display_count);
            &&& accounted(end)
            &&& f.cache.window.is_prefix_of(end.window)
            &&& f.oversized.is_prefix_of(g.oversized)
            &&& g.pb == (Playback { order: g.pb.order, fails: g.pb.fails, ..f.pb })
        }),
{
    lemma_collect_accounts(f, arrivals, arrivals.len() as int);
    let g = collected_all(f, arrivals, arrivals.len() as int);
    lemma_placed_accounts(g.pb, g.cache, display_count, 0);
    assert(total_bytes(Map::<Seq<char>, Picture>::empty()) == 0);
}

proof fn lemma_collect_accounts(f: Frame, arrivals: Seq<Arrived>, n: int)
    requires
        accounted(f.cache),
        0 <= n <= arrivals.len(),
    ensures
        ({
            let g = collected_all(f, arrivals, n);
            &&& g.cache.window == f.cache.window
            &&& g.cache.vram == f.cache.vram
            &&& g.cache.ready.dom().finite()
            &&& g.cache.inflight.finite()
            &&& f.changed ==> g.changed
            &&& g.changed || g.cache.ready_bytes == total_bytes(g.cache.ready)
            &&& f.oversized.is_prefix_of(g.oversized)
            &&& g.pb == (Playback { order: g.pb.order, fails: g.pb.fails, ..f.pb })
        }),
    decreases n,
{
    if n > 0 {
        lemma_collect_accounts(f, arrivals, n - 1);
        let g = collected_all(f, arrivals, n - 1);
        let a = arrivals[n - 1];
        if let Outcome::Decoded(picture) = a.outcome {
            lemma_total_insert(g.cache.ready, a.path, picture);
            if g.cache.ready.contains_key(a.path) {
                lemma_total_remove(g.cache.ready, a.path);
            } else {
                assert(g.cache.ready.remove(a.path) =~= g.cache.ready);
            }
        }
    }
}

proof fn lemma_placed_accounts(pb: Playback, cache: Cache, display_count: int, uploads: int)
    requires
        cache.ready.dom().finite(),
        cache.vram == window_bytes(cache.window),
    ensures
        ({
            let end = placed(pb, cache, display_count, uploads);
            &&& end.ready.dom().finite()
            &&& end.inflight == cache.inflight
            &&& end.vram == window_bytes(end.window)
            &&& cache.window.is_prefix_of(end.window)
            &&& cache.ready_bytes == total_bytes(cache.ready) ==> end.ready_bytes == total_bytes(
                end.ready,
            )
        }),
    decreases pb.order.len() - pb.cursor - cache.window.len(),
{
    let next = pb.cursor + cache.window.len();
    let path = pb.order[next];
    let on_display = cache.window.len() < display_count;
    if !(0 <= next < pb.order.len()) || !cache.ready.contains_key(path) {
    } else if !on_display && cache.vram + cache.ready[path].bytes > VRAM_LIMIT {
    } else if !on_display && uploads >= MAX_UPLOADS_PER_FRAME {
    } else {
        let one = with_placed(cache, path);
        lemma_total_remove(cache.ready, path);
        lemma_window_bytes_push(cache.window, one.window.last());
        assert(one.window =~= cache.window.push(one.window.last()));
        lemma_placed_accounts(
            pb,
            one,
            display_count,
            if on_display {
                uploads
            } else {
                uploads + 1
            },
        );
    }
}

/// The epoch of the cache is the one that was announced to the workers.
pub open spec fn in_step(app: App) -> bool {
    app.cache.epoch == app.pool.epoch
}

/// Whatever starts a new epoch announces it: a change of the order, a refill, the
/// end of a frame and the reset to a folder keep the workers in step.
pub proof fn law_epoch_is_announced(
    app: App,
    arrivals: Seq<Arrived>,
    display_count: int,
    settled: App,
    folder: Seq<char>,
    order: Seq<Seq<char>>,
)
    requires
        in_step(app),
        settles_to(app, settled),
    ensures
        ({
            let f = Frame {
                pb: app.pb,
                cache: app.cache,
                oversized: Seq::empty(),
                changed: false,
            };
            let g = collected_all(f, arrivals, arrivals.len() as int);
            in_step(refilled_app(app, g, display_count))
        }),
        in_step(app.order_changed()),
        in_step(app.advanced()),
        in_step(settled),
        in_step(reset_to(app, folder, order)),
{
    let f = Frame { pb: app.pb, cache: app.cache, oversized: Seq::empty(), changed: false };
    lemma_collect_keeps_epoch(f, arrivals, arrivals.len() as int);
    let g = collected_all(f, arrivals, arrivals.len() as int);
    lemma_placed_keeps_epoch(g.pb, g.cache, display_count, 0);
    lemma_without_first_epoch(app.cache, app.shown());
}

proof fn lemma_collect_keeps_epoch(f: Frame, arrivals: Seq<Arrived>, n: int)
    ensures
        collected_all(f, arrivals, n).cache.epoch == f.cache.epoch,
    decreases n,
{
    if n > 0 {
        lemma_collect_keeps_epoch(f, arrivals, n - 1);
    }
}

proof fn lemma_placed_keeps_epoch(pb: Playback, cache: Cache, display_count: int, uploads: int)
    ensures
        placed(pb, cache, display_count, uploads).epoch == cache.epoch,
    decreases pb.order.len() - pb.cursor - cache.window.len(),
{
    let next = pb.cursor + cache.window.len();
    let path = pb.order[next];
    let on_display = cache.window.len() < display_count;
    if !(0 <= next < pb.order.len()) || !cache.ready.contains_key(path) {
    } else if !on_display && cache.vram + cache.ready[path].bytes > VRAM_LIMIT {
    } else if !on_display && uploads >= MAX_UPLOADS_PER_FRAME {
    } else {
        lemma_placed_keeps_epoch(
            pb,
            with_placed(cache, path),
            display_count,
            if on_display {
                uploads
            } else {
                uploads + 1
            },
        );
    }
}

proof fn lemma_without_first_epoch(cache: Cache, n: int)
    ensures
        cache.without_first(n).epoch == cache.epoch,
    decreases n,
{
    if n > 0 && cache.window.len() > 0 {
        lemma_without_first_epoch(cache.without(0), n - 1);
    }
}

} // verus!
