//! How much is held at a time: what is decoded or asked for is within reach of
//! the cursor, so that its number is bounded.

use crate::app::App;
use crate::cache::Cache;
use crate::coherence::{
    all_answer, answers, coherent, law_collect_keeps_coherence, lemma_with_placed,
    lemma_without_first,
};
use crate::playback::Playback;
use crate::refill::{
    asked, asked_all, collected, collected_all, placed, reach, refilled, wanted_from, with_placed,
    Arrived, Asking, Frame, Want,
};
use crate::{MAX_UPLOADS_PER_FRAME, READAHEAD_DEPTH, VRAM_LIMIT};
use vstd::prelude::*;
use vstd::seq_lib::seq_to_set_is_finite;
use vstd::set_lib::{lemma_len_subset, lemma_set_disjoint_lens};

verus! {

/// The path is behind the window, within reach of the cursor.
pub open spec fn near(pb: Playback, cache: Cache, path: Seq<char>) -> bool {
    exists|j: int|
        pb.cursor + cache.window.len() <= j < pb.cursor + READAHEAD_DEPTH && j < pb.order.len()
            && #[trigger] pb.order[j] == path
}

/// What is decoded or asked for is within reach of the cursor.
pub open spec fn within_reach(pb: Playback, cache: Cache) -> bool {
    &&& forall|p: Seq<char>| #[trigger] cache.ready.contains_key(p) ==> near(pb, cache, p)
    &&& forall|p: Seq<char>| #[trigger] cache.inflight.contains(p) ==> near(pb, cache, p)
}

/// No more than [`READAHEAD_DEPTH`] pictures are decoded or asked for.
pub proof fn law_pictures_held_are_bounded(pb: Playback, cache: Cache)
    requires
        coherent(pb, cache),
        within_reach(pb, cache),
    ensures
        cache.ready.dom().len() + cache.inflight.len() <= READAHEAD_DEPTH,
{
    let from = pb.cursor + cache.window.len();
    let all = cache.ready.dom() + cache.inflight;
    let to = if pb.cursor + READAHEAD_DEPTH < pb.order.len() {
        pb.cursor + READAHEAD_DEPTH
    } else {
        pb.order.len() as int
    };
    lemma_set_disjoint_lens(cache.ready.dom(), cache.inflight);
    if from <= to {
        let part = pb.order.subrange(from, to);
        assert forall|p: Seq<char>| all.contains(p) implies part.to_set().contains(p) by {
            assert(cache.ready.contains_key(p) || cache.inflight.contains(p));
            assert(near(pb, cache, p));
            let j = choose|j: int|
                from <= j < pb.cursor + READAHEAD_DEPTH && j < pb.order.len()
                    && #[trigger] pb.order[j] == p;
            assert(part[j - from] == p);
        }
        assert(all.subset_of(part.to_set()));
        seq_to_set_is_finite(part);
        lemma_len_subset(all, part.to_set());
        part.lemma_cardinality_of_set();
    } else {
        assert forall|p: Seq<char>| !all.contains(p) by {
            if all.contains(p) {
                assert(cache.ready.contains_key(p) || cache.inflight.contains(p));
                assert(near(pb, cache, p));
            }
        }
        assert(all =~= Set::empty());
    }
}

proof fn lemma_collect_within_reach(f: Frame, a: Arrived)
    requires
        coherent(f.pb, f.cache),
        within_reach(f.pb, f.cache),
        answers(f.cache, a),
    ensures
        within_reach(collected(f, a).pb, collected(f, a).cache),
{
    if a.epoch == f.cache.epoch {
        let g = collected(f, a);
        let order = f.pb.order;
        let from = f.pb.cursor + f.cache.window.len();
        assert(near(f.pb, f.cache, a.path));
        let i = choose|i: int|
            from <= i < f.pb.cursor + READAHEAD_DEPTH && i < order.len() && #[trigger] order[i]
                == a.path;
        order.index_of_first_ensures(a.path);
        assert(order.contains(order[i]));
        let rest = order.remove_value(a.path);
        assert(rest == order.remove(i));
        assert forall|p: Seq<char>| near(f.pb, f.cache, p) && (p != a.path || g.pb.order
            == order) implies #[trigger] near(g.pb, g.cache, p) by {
            let j = choose|j: int|
                from <= j < f.pb.cursor + READAHEAD_DEPTH && j < order.len() && #[trigger] order[j]
                    == p;
            if g.pb.order == order {
                assert(g.pb.order[j] == p);
            } else if j < i {
                assert(g.pb.order[j] == p);
            } else {
                assert(j != i);
                assert(g.pb.order[j - 1] == p);
            }
        }
        assert forall|p: Seq<char>| #[trigger] g.cache.ready.contains_key(p) implies near(
            g.pb,
            g.cache,
            p,
        ) by {
            assert(f.cache.ready.contains_key(p) || p == a.path);
        }
        assert forall|p: Seq<char>| #[trigger] g.cache.inflight.contains(p) implies near(
            g.pb,
            g.cache,
            p,
        ) by {
            assert(f.cache.inflight.contains(p));
        }
    }
}

proof fn lemma_collect_all_within_reach(f: Frame, arrivals: Seq<Arrived>, n: int)
    requires
        coherent(f.pb, f.cache),
        within_reach(f.pb, f.cache),
        all_answer(f.cache, arrivals),
        0 <= n <= arrivals.len(),
    ensures
        ({
            let g = collected_all(f, arrivals, n);
            &&& coherent(g.pb, g.cache)
            &&& within_reach(g.pb, g.cache)
            &&& g.cache.epoch == f.cache.epoch
            &&& forall|i: int|
                n <= i < arrivals.len() ==> answers(g.cache, #[trigger] arrivals[i])
        }),
    decreases n,
{
    if n > 0 {
        lemma_collect_all_within_reach(f, arrivals, n - 1);
        let g = collected_all(f, arrivals, n - 1);
        assert(answers(g.cache, arrivals[n - 1]));
        law_collect_keeps_coherence(g, arrivals[n - 1]);
        lemma_collect_within_reach(g, arrivals[n - 1]);
        let h = collected(g, arrivals[n - 1]);
        assert forall|i: int| n <= i < arrivals.len() implies answers(
            h.cache,
            #[trigger] arrivals[i],
        ) by {
            assert(answers(g.cache, arrivals[i]));
        }
    }
}

proof fn lemma_placed_within_reach(pb: Playback, cache: Cache, display_count: int, uploads: int)
    requires
        coherent(pb, cache),
        within_reach(pb, cache),
    ensures
        within_reach(pb, placed(pb, cache, display_count, uploads)),
    decreases pb.order.len() - pb.cursor - cache.window.len(),
{
    let next = pb.cursor + cache.window.len();
    let path = pb.order[next];
    let on_display = cache.window.len() < display_count;
    if !(0 <= next < pb.order.len()) || !cache.ready.contains_key(path) {
    } else if !on_display && cache.vram + cache.ready[path].bytes > VRAM_LIMIT {
        let end = Cache { blocked: true, ..cache };
        assert(forall|p: Seq<char>| near(pb, cache, p) ==> near(pb, end, p));
    } else if !on_display && uploads >= MAX_UPLOADS_PER_FRAME {
    } else {
        let one = with_placed(cache, path);
        lemma_with_placed(pb, cache);
        assert forall|p: Seq<char>| near(pb, cache, p) && p != path implies #[trigger] near(
            pb,
            one,
            p,
        ) by {
            let j = choose|j: int|
                next <= j < pb.cursor + READAHEAD_DEPTH && j < pb.order.len()
                    && #[trigger] pb.order[j] == p;
            assert(pb.order[j] == p);
        }
        lemma_placed_within_reach(
            pb,
            one,
            display_count,
            if on_display {
                uploads
            } else {
                uploads + 1
            },
        );
    }
}

/// A refill keeps what is held within reach.
pub proof fn law_refill_stays_within_reach(f: Frame, arrivals: Seq<Arrived>, display_count: int)
    requires
        coherent(f.pb, f.cache),
        within_reach(f.pb, f.cache),
        all_answer(f.cache, arrivals),
    ensures
        ({
            let g = collected_all(f, arrivals, arrivals.len() as int);
            within_reach(g.pb, refilled(g, display_count))
        }),
{
    lemma_collect_all_within_reach(f, arrivals, arrivals.len() as int);
    let g = collected_all(f, arrivals, arrivals.len() as int);
    lemma_placed_within_reach(g.pb, g.cache, display_count, 0);
}

/// The pictures to ask for are within reach.
pub proof fn law_wanted_is_within_reach(pb: Playback, cache: Cache, display_count: int, pos: int)
    requires
        display_count <= READAHEAD_DEPTH,
        cache.window.len() <= pos,
    ensures
        forall|i: int|
            0 <= i < wanted_from(pb, cache, display_count, pos).len() ==> near(
                pb,
                cache,
                (#[trigger] wanted_from(pb, cache, display_count, pos)[i]).path,
            ),
    decreases reach(display_count) - pos,
{
    let path = pb.order[pb.cursor + pos];
    if pos >= reach(display_count) || pb.cursor + pos >= pb.order.len() {
    } else {
        law_wanted_is_within_reach(pb, cache, display_count, pos + 1);
        let rest = wanted_from(pb, cache, display_count, pos + 1);
        let all = wanted_from(pb, cache, display_count, pos);
        if !(cache.ready.contains_key(path) || cache.inflight.contains(path)) {
            assert forall|i: int| 0 <= i < all.len() implies near(
                pb,
                cache,
                (#[trigger] all[i]).path,
            ) by {
                if i > 0 {
                    assert(all[i] == rest[i - 1]);
                } else {
                    assert(pb.order[pb.cursor + pos] == all[i].path);
                }
            }
        }
    }
}

/// Asking for pictures within reach keeps what is held within reach.
pub proof fn law_request_stays_within_reach(
    pb: Playback,
    s: Asking,
    wanted: Seq<Want>,
    taken: Seq<bool>,
    n: int,
)
    requires
        within_reach(pb, s.cache),
        0 <= n <= wanted.len(),
        forall|i: int| 0 <= i < wanted.len() ==> near(pb, s.cache, (#[trigger] wanted[i]).path),
    ensures
        within_reach(pb, asked_all(s, wanted, taken, n).cache),
        asked_all(s, wanted, taken, n).cache.window == s.cache.window,
    decreases n,
{
    if n > 0 {
        law_request_stays_within_reach(pb, s, wanted, taken, n - 1);
        let before = asked_all(s, wanted, taken, n - 1);
        let after = asked(before, wanted[n - 1], taken[n - 1]);
        assert(near(pb, s.cache, wanted[n - 1].path));
        assert forall|p: Seq<char>| near(pb, before.cache, p) || near(pb, s.cache, p) implies
            #[trigger] near(pb, after.cache, p) by {
            let j = choose|j: int|
                pb.cursor + s.cache.window.len() <= j < pb.cursor + READAHEAD_DEPTH && j
                    < pb.order.len() && #[trigger] pb.order[j] == p;
            assert(pb.order[j] == p);
        }
    }
}

/// The advance keeps what is held within reach.
pub proof fn law_advance_stays_within_reach(app: App)
    requires
        coherent(app.pb, app.cache),
        within_reach(app.pb, app.cache),
    ensures
        within_reach(app.advanced().pb, app.advanced().cache),
{
    lemma_without_first(app.cache, app.shown());
    let next = app.advanced();
    assert forall|p: Seq<char>| near(app.pb, app.cache, p) implies #[trigger] near(
        next.pb,
        next.cache,
        p,
    ) by {
        let j = choose|j: int|
            app.pb.cursor + app.cache.window.len() <= j < app.pb.cursor + READAHEAD_DEPTH && j
                < app.pb.order.len() && #[trigger] app.pb.order[j] == p;
        assert(next.pb.order[j] == p);
    }
}

/// A new epoch starts with nothing held.
pub proof fn law_new_epoch_holds_nothing(pb: Playback, cache: Cache)
    ensures
        within_reach(pb, cache.bumped()),
        cache.bumped().ready.dom().len() + cache.bumped().inflight.len() == 0,
{
}

} // verus!
