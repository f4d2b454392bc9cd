//! The window of pictures that have a place, and what happens to it at the end
//! of a cycle.

use crate::decoder::DecoderPool;
use crate::image_loader::Picture;
use crate::paths::rearranged;
use crate::playback::{avoiding, Playback, PlaybackState};
use crate::ready::{total_bytes, ReadyImages};
use std::collections::VecDeque;
use vstd::hash_set::StringHashSet;
use vstd::prelude::*;

verus! {

/// `egui::TextureHandle`, a picture in texture memory.
#[verifier::external_type_specification]
#[verifier::external_body]
pub struct ExTextureHandle(egui::TextureHandle);

/// A picture in the window.
pub struct CachedImage {
    pub path: String,
    /// The picture, until it is uploaded.
    pub pixels: Option<egui::ColorImage>,
    /// The picture, once it is uploaded.
    pub texture: Option<egui::TextureHandle>,
    pub width: u32,
    pub height: u32,
    /// Bytes of texture memory.
    pub vram_size: usize,
}

pub struct CacheState {
    /// The pictures from the cursor on that have a place; the first ones are
    /// on display.
    pub window: VecDeque<CachedImage>,
    /// Bytes of texture memory that the window takes.
    pub current_vram: usize,
    /// Textures that are freed when the next frame begins.
    pub pending_free: Vec<egui::TextureHandle>,
    /// Set when a picture ahead of the display did not fit into texture memory.
    pub preload_blocked_by_vram: bool,
    /// Decoded pictures without a place.
    pub ready: ReadyImages,
    /// Paths that have been asked for and not been answered.
    pub inflight: StringHashSet,
    /// Bytes of the pictures in `ready`.
    pub ready_bytes: usize,
    /// Counts the changes of the play order that make results worthless.
    pub epoch: u64,
}

/// What the end of a frame found.
#[derive(Debug, PartialEq, Eq, Structural)]
pub enum Settle {
    /// Nothing to do.
    Unchanged,
    /// Every picture has been shown, and the order was shuffled anew.
    CycleBoundary,
    /// There is no picture any more.
    Empty,
}

/// What a [`CachedImage`] holds.
pub struct Slot {
    pub path: Seq<char>,
    pub pixels: Option<egui::ColorImage>,
    pub texture: Option<egui::TextureHandle>,
    pub width: u32,
    pub height: u32,
    pub vram: nat,
}

/// What a [`CacheState`] holds.
#[verifier::ext_equal]
pub struct Cache {
    pub window: Seq<Slot>,
    pub vram: nat,
    pub pending_free: Seq<egui::TextureHandle>,
    pub blocked: bool,
    pub ready: Map<Seq<char>, Picture>,
    pub inflight: Set<Seq<char>>,
    pub ready_bytes: nat,
    pub epoch: u64,
}

impl View for CachedImage {
    type V = Slot;

    open spec fn view(&self) -> Slot {
        Slot {
            path: self.path@,
            pixels: self.pixels,
            texture: self.texture,
            width: self.width,
            height: self.height,
            vram: self.vram_size as nat,
        }
    }
}

/// What a list of [`CachedImage`]s holds.
pub open spec fn slots(window: Seq<CachedImage>) -> Seq<Slot> {
    window.map_values(|c: CachedImage| c@)
}

impl View for CacheState {
    type V = Cache;

    open spec fn view(&self) -> Cache {
        Cache {
            window: slots(self.window@),
            vram: self.current_vram as nat,
            pending_free: self.pending_free@,
            blocked: self.preload_blocked_by_vram,
            ready: self.ready@,
            inflight: self.inflight@,
            ready_bytes: self.ready_bytes as nat,
            epoch: self.epoch,
        }
    }
}

/// `a - b`, or 0 where `b` is larger.
pub open spec fn less(a: nat, b: nat) -> nat {
    if a < b {
        0
    } else {
        (a - b) as nat
    }
}

/// A list of textures with the one of a slot behind it, if it has one.
pub open spec fn freed(textures: Seq<egui::TextureHandle>, slot: Slot) -> Seq<
    egui::TextureHandle,
> {
    match slot.texture {
        Some(texture) => textures.push(texture),
        None => textures,
    }
}

impl Cache {
    pub open spec fn empty() -> Cache {
        Cache {
            window: Seq::empty(),
            vram: 0,
            pending_free: Seq::empty(),
            blocked: false,
            ready: Map::empty(),
            inflight: Set::empty(),
            ready_bytes: 0,
            epoch: 0,
        }
    }

    /// The `i`th picture of the window is gone, and its texture is to be freed.
    pub open spec fn without(self, i: int) -> Cache {
        Cache {
            window: self.window.remove(i),
            vram: less(self.vram, self.window[i].vram),
            pending_free: freed(self.pending_free, self.window[i]),
            ..self
        }
    }

    /// The first `n` pictures of the window are gone.
    pub open spec fn without_first(self, n: int) -> Cache
        decreases n,
    {
        if n <= 0 || self.window.len() == 0 {
            self
        } else {
            self.without(0).without_first(n - 1)
        }
    }

    /// The next epoch: what was asked for or decoded in the last one is gone.
    pub open spec fn bumped(self) -> Cache {
        Cache {
            ready: Map::empty(),
            inflight: Set::empty(),
            ready_bytes: 0,
            epoch: self.epoch.wrapping_add(1),
            ..self
        }
    }

    /// The bytes counted for the decoded pictures cover them.
    pub open spec fn covers(self) -> bool {
        self.ready.dom().finite() && total_bytes(self.ready) <= self.ready_bytes
    }
}

/// What leaves the window takes no decoded picture along.
pub proof fn lemma_without_first_ready(cache: Cache, n: int)
    ensures
        cache.without_first(n).ready == cache.ready,
        cache.without_first(n).ready_bytes == cache.ready_bytes,
    decreases n,
{
    if n > 0 && cache.window.len() > 0 {
        lemma_without_first_ready(cache.without(0), n - 1);
    }
}

proof fn lemma_slots_remove(window: Seq<CachedImage>, i: int)
    requires
        0 <= i < window.len(),
    ensures
        slots(window.remove(i)) == slots(window).remove(i),
{
    assert(slots(window.remove(i)) =~= slots(window).remove(i));
}

impl CacheState {
    pub fn new() -> (cache: Self)
        ensures
            cache@ == Cache::empty(),
    {
        let cache = Self {
            window: VecDeque::new(),
            current_vram: 0,
            pending_free: Vec::new(),
            preload_blocked_by_vram: false,
            ready: ReadyImages::new(),
            inflight: StringHashSet::new(),
            ready_bytes: 0,
            epoch: 0,
        };
        assert(cache@ =~= Cache::empty());
        cache
    }

    /// Takes the first picture out of the window and hands back its path.
    pub fn evict_front(&mut self) -> (path: Option<String>)
        ensures
            match path {
                Some(path) => old(self)@.window.len() > 0 && path@ == old(self)@.window[0].path
                    && final(self)@ == old(self)@.without(0),
                None => old(self)@.window.len() == 0 && final(self)@ == old(self)@,
            },
    {
        let ghost start = *self;
        match self.window.pop_front() {
            Some(slot) => {
                self.current_vram = self.current_vram.saturating_sub(slot.vram_size);
                if let Some(texture) = slot.texture {
                    self.pending_free.push(texture);
                }
                proof {
                    assert(start.window@.subrange(1, start.window@.len() as int)
                        =~= start.window@.remove(0));
                    lemma_slots_remove(start.window@, 0);
                    assert(start@.window[0] == slot@);
                    assert(self@ =~= start@.without(0));
                }
                Some(slot.path)
            },
            None => None,
        }
    }

    /// Takes the picture at `index` out of the window, if there is one.
    pub fn evict_at(&mut self, index: usize)
        ensures
            final(self)@ == if index < old(self)@.window.len() {
                old(self)@.without(index as int)
            } else {
                old(self)@
            },
    {
        let ghost start = *self;
        if let Some(slot) = self.window.remove(index) {
            self.current_vram = self.current_vram.saturating_sub(slot.vram_size);
            if let Some(texture) = slot.texture {
                self.pending_free.push(texture);
            }
            proof {
                lemma_slots_remove(start.window@, index as int);
                assert(start@.window[index as int] == slot@);
                assert(self@ =~= start@.without(index as int));
            }
        }
    }

    /// Takes every picture out of the window.
    pub fn evict_all(&mut self)
        ensures
            final(self)@ == old(self)@.without_first(old(self)@.window.len() as int),
            final(self)@.window.len() == 0,
    {
        let ghost start = self@;
        while self.window.len() > 0
            invariant
                start.without_first(start.window.len() as int) == self@.without_first(
                    self@.window.len() as int,
                ),
            decreases self.window.len(),
        {
            self.evict_front();
        }
    }

    /// Starts the next epoch and announces it to the workers.
    pub fn bump_epoch(&mut self, decoder: &mut DecoderPool)
        ensures
            final(self)@ == old(self)@.bumped(),
            final(self).window == old(self).window,
            final(decoder)@ == old(decoder)@.with_epoch(final(self)@.epoch),
    {
        self.epoch = self.epoch.wrapping_add(1);
        self.ready.clear();
        self.inflight.clear();
        self.ready_bytes = 0;
        decoder.set_epoch(self.epoch);
        assert(self@ =~= old(self)@.bumped());
    }
}

impl Default for CacheState {
    fn default() -> (cache: Self)
        ensures
            cache@ == Cache::empty(),
    {
        Self::new()
    }
}

/// The move to the empty state: nothing is on display any more.
pub open spec fn emptied(cache: Cache) -> Cache {
    Cache { vram: 0, blocked: false, ..cache.without_first(cache.window.len() as int) }.bumped()
}

/// The move to a new cycle, with an order of its own.
pub open spec fn next_cycle(pb: Playback, order: Seq<Seq<char>>) -> Playback {
    Playback { order, cursor: 0, cycle: pb.cycle.wrapping_add(1), empty_active: false, ..pb }
}

/// The end of a frame: where no picture is left, the display is emptied, once;
/// where every picture has been shown, a new cycle begins in a new order.
pub fn settle_cycle_or_empty(
    pb: &mut PlaybackState,
    cache: &mut CacheState,
    decoder: &mut DecoderPool,
) -> (settle: Settle)
    ensures
        settle == if old(pb)@.order.len() == 0 {
            if old(pb)@.empty_active {
                Settle::Unchanged
            } else {
                Settle::Empty
            }
        } else if old(cache)@.window.len() == 0 && old(pb)@.cursor >= old(pb)@.order.len() {
            Settle::CycleBoundary
        } else {
            Settle::Unchanged
        },
        match settle {
            Settle::Unchanged => {
                &&& final(pb)@ == (Playback {
                    empty_active: old(pb)@.order.len() == 0,
                    ..old(pb)@
                })
                &&& final(cache)@ == old(cache)@
                &&& final(decoder)@ == old(decoder)@
            },
            Settle::Empty => {
                &&& final(pb)@ == (Playback { cursor: 0, empty_active: true, ..old(pb)@ })
                &&& final(cache)@ == emptied(old(cache)@)
                &&& final(decoder)@ == old(decoder)@.with_epoch(final(cache)@.epoch)
            },
            Settle::CycleBoundary => {
                &&& final(pb)@ == next_cycle(old(pb)@, final(pb)@.order)
                &&& rearranged(old(pb)@.order, final(pb)@.order)
                &&& exists|shuffled: Seq<Seq<char>>|
                    rearranged(old(pb)@.order, shuffled) && final(pb)@.order
                        == #[trigger] avoiding(shuffled, old(pb)@.last_shown)
                &&& final(cache)@ == (Cache { vram: 0, blocked: false, ..old(cache)@ }.bumped())
                &&& final(decoder)@ == old(decoder)@.with_epoch(final(cache)@.epoch)
            },
        },
{
    let ghost start = pb@;
    let ghost shown = cache@;
    if pb.play_order.len() == 0 {
        if pb.empty_state_active {
            assert(pb@ =~= (Playback { empty_active: true, ..start }));
            return Settle::Unchanged;
        }
        cache.evict_all();
        cache.current_vram = 0;
        cache.preload_blocked_by_vram = false;
        pb.cursor = 0;
        pb.empty_state_active = true;
        cache.bump_epoch(decoder);
        assert(pb@ =~= (Playback { cursor: 0, empty_active: true, ..start }));
        assert(cache@ =~= emptied(shown));
        return Settle::Empty;
    }
    pb.empty_state_active = false;
    assert(pb@ =~= (Playback { empty_active: false, ..start }));
    if cache.window.len() == 0 && pb.cursor >= pb.play_order.len() {
        cache.current_vram = 0;
        cache.preload_blocked_by_vram = false;
        pb.cursor = 0;
        let last_shown = pb.last_shown.clone();
        pb.reshuffle_all_avoiding(&last_shown);
        pb.cycle_count = pb.cycle_count.wrapping_add(1);
        cache.bump_epoch(decoder);
        assert(pb@ =~= next_cycle(start, pb@.order));
        assert(cache@ =~= (Cache { vram: 0, blocked: false, ..shown }.bumped()));
        return Settle::CycleBoundary;
    }
    Settle::Unchanged
}

} // verus!
