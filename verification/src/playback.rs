//! The play order: which picture comes when, and what happens to the order at
//! the end of a cycle.

use crate::paths::{has_path, lemma_exchange, lemma_rearranged, names, rearranged};
use rand::seq::SliceRandom;
use vstd::hash_map::StringHashMap;
use vstd::prelude::*;

verus! {

/// A file that appeared in the folder and may still be being written.
pub struct PendingFile {
    pub path: String,
    /// Bytes, when last looked at.
    pub size: u64,
    /// Time of last change, in nanoseconds from the Unix epoch, when last
    /// looked at.
    pub modified: i128,
}

pub struct PlaybackState {
    /// The pictures in the order in which they are shown.
    pub play_order: Vec<String>,
    /// Place in `play_order` of the leftmost picture on screen.
    pub cursor: usize,
    /// Files that join the order once two looks at them agree.
    pub pending: Vec<PendingFile>,
    /// Failed decodes in a row, by path.
    pub fail_counts: StringHashMap<u32>,
    /// Completed passes through the order.
    pub cycle_count: u32,
    /// The pictures that were on screen before the last advance.
    pub last_shown: Vec<String>,
    /// Set once the move to the empty state has been made.
    pub empty_state_active: bool,
}

/// What a [`PendingFile`] holds.
pub struct Pending {
    pub path: Seq<char>,
    pub size: u64,
    pub modified: i128,
}

/// What a [`PlaybackState`] holds.
#[verifier::ext_equal]
pub struct Playback {
    pub order: Seq<Seq<char>>,
    pub cursor: int,
    pub pending: Seq<Pending>,
    pub fails: Map<Seq<char>, u32>,
    pub cycle: u32,
    pub last_shown: Seq<Seq<char>>,
    pub empty_active: bool,
}

impl View for PendingFile {
    type V = Pending;

    open spec fn view(&self) -> Pending {
        Pending { path: self.path@, size: self.size, modified: self.modified }
    }
}

/// What a list of [`PendingFile`]s holds.
pub open spec fn pending_view(pending: Seq<PendingFile>) -> Seq<Pending> {
    pending.map_values(|f: PendingFile| f@)
}

impl View for PlaybackState {
    type V = Playback;

    open spec fn view(&self) -> Playback {
        Playback {
            order: names(self.play_order@),
            cursor: self.cursor as int,
            pending: pending_view(self.pending@),
            fails: self.fail_counts@,
            cycle: self.cycle_count,
            last_shown: names(self.last_shown@),
            empty_active: self.empty_state_active,
        }
    }
}

/// `b` is `a` with the part from `from` on in some order.
pub open spec fn tail_shuffled(a: Seq<Seq<char>>, b: Seq<Seq<char>>, from: int) -> bool {
    if from >= a.len() {
        b == a
    } else {
        &&& b.len() == a.len()
        &&& b.take(from) == a.take(from)
        &&& rearranged(a.skip(from), b.skip(from))
    }
}

/// A state with nothing pending and no failures.
pub open spec fn restored(
    order: Seq<Seq<char>>,
    cursor: int,
    cycle: u32,
    last_shown: Seq<Seq<char>>,
) -> Playback {
    Playback {
        order,
        cursor,
        pending: Seq::empty(),
        fails: Map::empty(),
        cycle,
        last_shown,
        empty_active: false,
    }
}

/// How many places at the front are kept free of the pictures last shown.
pub open spec fn guarded_places(order: Seq<Seq<char>>, last_shown: Seq<Seq<char>>) -> int {
    let most = if order.len() < 2 {
        order.len() as int
    } else {
        2
    };
    if last_shown.len() < most {
        last_shown.len() as int
    } else {
        most
    }
}

/// The first place from `from` on whose picture is not among `last_shown`, or
/// the length of the order.
pub open spec fn first_fresh(
    order: Seq<Seq<char>>,
    last_shown: Seq<Seq<char>>,
    from: int,
) -> int
    decreases order.len() - from,
{
    if from >= order.len() {
        order.len() as int
    } else if last_shown.contains(order[from]) {
        first_fresh(order, last_shown, from + 1)
    } else {
        from
    }
}

/// The order after the first `places` guarded places have been looked at: a
/// picture that was just shown changes places with the first picture behind it
/// that was not.
pub open spec fn front_cleared(
    order: Seq<Seq<char>>,
    last_shown: Seq<Seq<char>>,
    places: int,
) -> Seq<Seq<char>>
    decreases places,
{
    if places <= 0 {
        order
    } else {
        let before = front_cleared(order, last_shown, places - 1);
        let i = places - 1;
        let j = first_fresh(before, last_shown, places);
        if last_shown.contains(before[i]) && j < before.len() {
            before.update(i, before[j]).update(j, before[i])
        } else {
            before
        }
    }
}

/// The order with the pictures last shown moved away from the front, as far as
/// there are others.
pub open spec fn avoiding(order: Seq<Seq<char>>, last_shown: Seq<Seq<char>>) -> Seq<Seq<char>> {
    front_cleared(order, last_shown, guarded_places(order, last_shown))
}

/// How many places of `order` hold a picture that is not among `last_shown`.
pub open spec fn fresh_places(order: Seq<Seq<char>>, last_shown: Seq<Seq<char>>) -> int
    decreases order.len(),
{
    if order.len() == 0 {
        0
    } else {
        fresh_places(order.drop_last(), last_shown) + (if last_shown.contains(order.last()) {
            0int
        } else {
            1int
        })
    }
}

proof fn lemma_first_fresh(order: Seq<Seq<char>>, last_shown: Seq<Seq<char>>, from: int)
    requires
        0 <= from <= order.len(),
    ensures
        from <= first_fresh(order, last_shown, from) <= order.len(),
        forall|j: int|
            from <= j < first_fresh(order, last_shown, from) ==> last_shown.contains(
                #[trigger] order[j],
            ),
        first_fresh(order, last_shown, from) < order.len() ==> !last_shown.contains(
            order[first_fresh(order, last_shown, from)],
        ),
    decreases order.len() - from,
{
    if from < order.len() && last_shown.contains(order[from]) {
        lemma_first_fresh(order, last_shown, from + 1);
    }
}

/// What the pass over the first `places` places leaves behind: the same
/// pictures, as many fresh places, and in each place looked at either a fresh
/// picture or one behind which no fresh picture is left.
proof fn lemma_front_cleared(order: Seq<Seq<char>>, last_shown: Seq<Seq<char>>, places: int)
    requires
        0 <= places <= guarded_places(order, last_shown),
    ensures
        ({
            let s = front_cleared(order, last_shown, places);
            &&& rearranged(order, s)
            &&& s.len() == order.len()
            &&& fresh_places(s, last_shown) == fresh_places(order, last_shown)
            &&& forall|i: int|
                0 <= i < places ==> !last_shown.contains(#[trigger] s[i]) || (forall|j: int|
                    i < j < s.len() ==> last_shown.contains(#[trigger] s[j]))
        }),
    decreases places,
{
    if places > 0 {
        lemma_front_cleared(order, last_shown, places - 1);
        let before = front_cleared(order, last_shown, places - 1);
        let i = places - 1;
        lemma_first_fresh(before, last_shown, places);
        let j = first_fresh(before, last_shown, places);
        if last_shown.contains(before[i]) && j < before.len() {
            lemma_exchange(before, i, j);
            lemma_fresh_update(before, last_shown, i, before[j]);
            lemma_fresh_update(before.update(i, before[j]), last_shown, j, before[i]);
        }
    }
}

proof fn lemma_fresh_update(
    order: Seq<Seq<char>>,
    last_shown: Seq<Seq<char>>,
    i: int,
    path: Seq<char>,
)
    requires
        0 <= i < order.len(),
    ensures
        fresh_places(order.update(i, path), last_shown) == fresh_places(order, last_shown) - (
        if last_shown.contains(order[i]) {
            0int
        } else {
            1int
        }) + (if last_shown.contains(path) {
            0int
        } else {
            1int
        }),
    decreases order.len(),
{
    let next = order.update(i, path);
    if i == order.len() - 1 {
        assert(next.drop_last() =~= order.drop_last());
    } else {
        assert(next.drop_last() =~= order.drop_last().update(i, path));
        lemma_fresh_update(order.drop_last(), last_shown, i, path);
    }
}

/// If none of the places from `limit` on is fresh, at most `limit` places are,
/// and fewer if one before it is not either.
proof fn lemma_fresh_bound(order: Seq<Seq<char>>, last_shown: Seq<Seq<char>>, limit: int, i: int)
    requires
        0 <= i < limit <= order.len(),
        last_shown.contains(order[i]),
        forall|j: int| limit <= j < order.len() ==> last_shown.contains(#[trigger] order[j]),
    ensures
        fresh_places(order, last_shown) < limit,
    decreases order.len(),
{
    lemma_fresh_range(order.drop_last(), last_shown);
    if limit < order.len() {
        lemma_fresh_bound(order.drop_last(), last_shown, limit, i);
    } else if i < order.len() - 1 {
        lemma_fresh_bound(order.drop_last(), last_shown, limit - 1, i);
    }
}

proof fn lemma_fresh_range(order: Seq<Seq<char>>, last_shown: Seq<Seq<char>>)
    ensures
        0 <= fresh_places(order, last_shown) <= order.len(),
    decreases order.len(),
{
    if order.len() > 0 {
        lemma_fresh_range(order.drop_last(), last_shown);
    }
}

/// Keeping the last pictures away from the front loses no picture and adds
/// none.
pub proof fn law_avoiding_keeps_every_picture(order: Seq<Seq<char>>, last_shown: Seq<Seq<char>>)
    ensures
        rearranged(order, avoiding(order, last_shown)),
{
    lemma_front_cleared(order, last_shown, guarded_places(order, last_shown));
}

/// A new cycle does not open with the pictures that closed the last one: the
/// first guarded places are fresh, as many of them as there are other pictures.
pub proof fn law_new_cycle_opens_fresh(order: Seq<Seq<char>>, last_shown: Seq<Seq<char>>, i: int)
    requires
        0 <= i < guarded_places(order, last_shown),
        i < fresh_places(order, last_shown),
    ensures
        !last_shown.contains(avoiding(order, last_shown)[i]),
{
    let g = guarded_places(order, last_shown);
    lemma_front_cleared(order, last_shown, g);
    let s = avoiding(order, last_shown);
    if last_shown.contains(s[i]) {
        lemma_fresh_bound(s, last_shown, i + 1, i);
    }
}

/// Where an order holds a picture that was not just shown, a new cycle opens
/// with such a picture.
pub proof fn law_first_picture_is_fresh(order: Seq<Seq<char>>, last_shown: Seq<Seq<char>>, k: int)
    requires
        0 <= k < order.len(),
        !last_shown.contains(order[k]),
    ensures
        !last_shown.contains(avoiding(order, last_shown)[0]),
{
    if last_shown.len() > 0 {
        lemma_fresh_counts(order, last_shown, k);
        law_new_cycle_opens_fresh(order, last_shown, 0);
    } else {
        assert(!last_shown.contains(avoiding(order, last_shown)[0]));
    }
}

/// A fresh place counts.
proof fn lemma_fresh_counts(order: Seq<Seq<char>>, last_shown: Seq<Seq<char>>, k: int)
    requires
        0 <= k < order.len(),
        !last_shown.contains(order[k]),
    ensures
        fresh_places(order, last_shown) >= 1,
    decreases order.len(),
{
    lemma_fresh_range(order.drop_last(), last_shown);
    if k < order.len() - 1 {
        lemma_fresh_counts(order.drop_last(), last_shown, k);
    }
}

/// Of an order without repeats, at most as many places as there are pictures
/// last shown are not fresh; so four pictures are enough when two were shown.
pub proof fn law_distinct_order_is_mostly_fresh(
    order: Seq<Seq<char>>,
    last_shown: Seq<Seq<char>>,
)
    requires
        order.no_duplicates(),
    ensures
        fresh_places(order, last_shown) >= order.len() - last_shown.len(),
{
    lemma_stale_are_shared(order, last_shown);
    let stale = order.to_set().intersect(last_shown.to_set());
    vstd::seq_lib::seq_to_set_is_finite(order);
    vstd::seq_lib::seq_to_set_is_finite(last_shown);
    vstd::set_lib::lemma_len_subset(stale, last_shown.to_set());
    last_shown.lemma_cardinality_of_set();
}

/// However its order was shuffled, a new cycle opens with a picture that was not
/// just shown, where there is one; the second picture is not one just shown
/// either, where there are two more than those.
pub proof fn law_shuffled_cycle_opens_fresh(
    order: Seq<Seq<char>>,
    shuffled: Seq<Seq<char>>,
    last_shown: Seq<Seq<char>>,
)
    requires
        order.no_duplicates(),
        rearranged(order, shuffled),
    ensures
        (exists|k: int| 0 <= k < order.len() && !last_shown.contains(#[trigger] order[k]))
            ==> !last_shown.contains(avoiding(shuffled, last_shown)[0]),
        last_shown.len() == 2 && order.len() >= 4 ==> !last_shown.contains(
            avoiding(shuffled, last_shown)[1],
        ),
{
    lemma_rearranged(order, shuffled);
    if exists|k: int| 0 <= k < order.len() && !last_shown.contains(#[trigger] order[k]) {
        let k = choose|k: int| 0 <= k < order.len() && !last_shown.contains(#[trigger] order[k]);
        assert(shuffled.contains(order[k]));
        let j = choose|j: int| 0 <= j < shuffled.len() && shuffled[j] == order[k];
        law_first_picture_is_fresh(shuffled, last_shown, j);
    }
    if last_shown.len() == 2 && order.len() >= 4 {
        law_distinct_order_is_mostly_fresh(shuffled, last_shown);
        law_new_cycle_opens_fresh(shuffled, last_shown, 1);
    }
}

proof fn lemma_stale_are_shared(order: Seq<Seq<char>>, last_shown: Seq<Seq<char>>)
    requires
        order.no_duplicates(),
    ensures
        order.to_set().intersect(last_shown.to_set()).finite(),
        fresh_places(order, last_shown) == order.len() - order.to_set().intersect(
            last_shown.to_set(),
        ).len(),
    decreases order.len(),
{
    let both = order.to_set().intersect(last_shown.to_set());
    if order.len() == 0 {
        assert(both =~= Set::empty());
    } else {
        let head = order.drop_last();
        let head_both = head.to_set().intersect(last_shown.to_set());
        lemma_stale_are_shared(head, last_shown);
        assert(order =~= head.push(order.last()));
        assert forall|p: Seq<char>|
            order.contains(p) <==> head.contains(p) || p == order.last() by {
            if head.contains(p) {
                let k = choose|k: int| 0 <= k < head.len() && head[k] == p;
                assert(order[k] == p);
            }
            if order.contains(p) && p != order.last() {
                let k = choose|k: int| 0 <= k < order.len() && order[k] == p;
                assert(head[k] == p);
            }
        }
        if head.contains(order.last()) {
            let k = choose|k: int| 0 <= k < head.len() && head[k] == order.last();
            assert(order[k] == order[order.len() - 1]);
        }
        if last_shown.contains(order.last()) {
            assert(both =~= head_both.insert(order.last()));
        } else {
            assert(both =~= head_both);
        }
    }
}

/// Shuffles `order[from..]` with `rand::seq::SliceRandom::shuffle` and the
/// generator of `rand::thread_rng`. The paths before `from` stay where they
/// are; those from `from` on are rearranged, each kept as often as it was.
/// Nothing is said of which rearrangement comes out: it is random.
#[verifier::external_body]
fn shuffle_from(order: &mut Vec<String>, from: usize)
    requires
        from <= old(order).len(),
    ensures
        final(order).len() == old(order).len(),
        names(final(order)@).take(from as int) == names(old(order)@).take(from as int),
        rearranged(names(old(order)@).skip(from as int), names(final(order)@).skip(from as int)),
{
    order[from..].shuffle(&mut rand::thread_rng());
}

/// Shuffles a whole list of paths.
pub fn shuffle_paths(paths: &mut Vec<String>)
    ensures
        rearranged(names(old(paths)@), names(final(paths)@)),
{
    let ghost before = names(paths@);
    shuffle_from(paths, 0);
    proof {
        assert(before.skip(0) =~= before);
        assert(names(paths@).skip(0) =~= names(paths@));
    }
}

/// Moves the pictures of `last_shown` away from the front of `order`, as far
/// as there are others to take their places.
pub fn clear_front(order: &mut Vec<String>, last_shown: &Vec<String>)
    ensures
        names(final(order)@) == avoiding(names(old(order)@), names(last_shown@)),
{
    let n = order.len();
    let ghost start = names(order@);
    let ghost shown = names(last_shown@);
    let most: usize = if n < 2 {
        n
    } else {
        2
    };
    let places: usize = if last_shown.len() < most {
        last_shown.len()
    } else {
        most
    };
    let mut i: usize = 0;
    while i < places
        invariant
            i <= places <= n,
            n == start.len(),
            order.len() == n,
            shown == names(last_shown@),
            places == guarded_places(start, shown),
            names(order@) == front_cleared(start, shown, i as int),
        decreases places - i,
    {
        let ghost before = names(order@);
        if has_path(last_shown, &order[i]) {
            let mut j: usize = i + 1;
            while j < n && has_path(last_shown, &order[j])
                invariant
                    i < j <= n,
                    n == order.len(),
                    before == names(order@),
                    shown == names(last_shown@),
                    first_fresh(before, shown, i + 1) == first_fresh(before, shown, j as int),
                decreases n - j,
            {
                j = j + 1;
            }
            if j < n {
                let a = order[i].clone();
                let b = order[j].clone();
                order.set(i, b);
                order.set(j, a);
                assert(names(order@) =~= before.update(i as int, before[j as int]).update(
                    j as int,
                    before[i as int],
                ));
            }
        }
        i = i + 1;
    }
}

impl PlaybackState {
    /// A state that shows `paths` in random order from the start.
    pub fn new(paths: Vec<String>) -> (state: Self)
        ensures
            rearranged(names(paths@), state@.order),
            state@ == restored(state@.order, 0, 0, Seq::empty()),
    {
        let mut paths = paths;
        shuffle_paths(&mut paths);
        let state = Self {
            play_order: paths,
            cursor: 0,
            pending: Vec::new(),
            fail_counts: StringHashMap::new(),
            cycle_count: 0,
            last_shown: Vec::new(),
            empty_state_active: false,
        };
        assert(state@ =~= restored(state@.order, 0, 0, Seq::empty()));
        state
    }

    /// A state that goes on where an earlier run stopped.
    pub fn from_restored(
        play_order: Vec<String>,
        cursor: usize,
        cycle_count: u32,
        last_shown: Vec<String>,
    ) -> (state: Self)
        ensures
            state@ == restored(
                names(play_order@),
                cursor as int,
                cycle_count,
                names(last_shown@),
            ),
    {
        let state = Self {
            play_order,
            cursor,
            pending: Vec::new(),
            fail_counts: StringHashMap::new(),
            cycle_count,
            last_shown,
            empty_state_active: false,
        };
        assert(state@ =~= restored(
            names(play_order@),
            cursor as int,
            cycle_count,
            names(last_shown@),
        ));
        state
    }

    /// Shuffles `play_order[from..]` and leaves the rest where it is.
    pub fn reshuffle_tail(&mut self, from: usize)
        ensures
            final(self)@ == (Playback { order: final(self)@.order, ..old(self)@ }),
            tail_shuffled(old(self)@.order, final(self)@.order, from as int),
    {
        if from >= self.play_order.len() {
            return;
        }
        shuffle_from(&mut self.play_order, from);
    }

    /// Shuffles the whole order for a new cycle and keeps the pictures that
    /// were on screen last away from its front.
    pub fn reshuffle_all_avoiding(&mut self, last_shown: &Vec<String>)
        ensures
            final(self)@ == (Playback { order: final(self)@.order, ..old(self)@ }),
            rearranged(old(self)@.order, final(self)@.order),
            exists|shuffled: Seq<Seq<char>>|
                rearranged(old(self)@.order, shuffled) && final(self)@.order == #[trigger] avoiding(
                    shuffled,
                    names(last_shown@),
                ),
            forall|k: int|
                0 <= k < old(self)@.order.len() && !names(last_shown@).contains(
                    #[trigger] old(self)@.order[k],
                ) ==> !names(last_shown@).contains(final(self)@.order[0]),
    {
        let ghost start = self@.order;
        shuffle_paths(&mut self.play_order);
        let ghost shuffled = names(self.play_order@);
        clear_front(&mut self.play_order, last_shown);
        assert(self@.order == avoiding(shuffled, names(last_shown@)));
        proof {
            law_avoiding_keeps_every_picture(shuffled, names(last_shown@));
            lemma_rearranged(start, shuffled);
            assert forall|k: int|
                0 <= k < start.len() && !names(last_shown@).contains(
                    #[trigger] start[k],
                ) implies !names(last_shown@).contains(self@.order[0]) by {
                assert(shuffled.contains(start[k]));
                let j = choose|j: int| 0 <= j < shuffled.len() && shuffled[j] == start[k];
                law_first_picture_is_fresh(shuffled, names(last_shown@), j);
            }
        }
    }
}

} // verus!
