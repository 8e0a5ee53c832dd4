//! The two-level color cache shared by encoder and decoder.
//!
//! Both sides apply identical mutation rules in identical order for every
//! opcode that changes the current pixel, so the two caches stay in lockstep
//! without being transmitted.

use vstd::prelude::*;

use crate::pixel::{hash_of, zero_pixel, Pixel};

verus! {

/// The mathematical model of the cache: a 64-slot primary table and a
/// 1024-slot secondary table, each addressed by the pixel hash modulo the
/// table size.
pub ghost struct Cache {
    pub l1: Seq<Pixel>,
    pub l2: Seq<Pixel>,
}

/// The primary slot a pixel hashes to.
pub open spec fn hash64(p: Pixel) -> int {
    hash_of(p) % 64
}

/// The secondary slot a pixel hashes to.
pub open spec fn hash1024(p: Pixel) -> int {
    hash_of(p) % 1024
}

/// Both tables have their fixed sizes.
pub open spec fn cache_wf(c: Cache) -> bool {
    c.l1.len() == 64 && c.l2.len() == 1024
}

/// A fresh cache: every slot of both levels holds the zero pixel.
pub open spec fn fresh_cache() -> Cache {
    Cache { l1: Seq::new(64, |i: int| zero_pixel()), l2: Seq::new(1024, |i: int| zero_pixel()) }
}

/// The insert-and-evict rule: the pixel overwrites its primary slot and the
/// displaced occupant moves to the secondary slot addressed by its own hash.
pub open spec fn cache_insert(c: Cache, px: Pixel) -> Cache {
    let evicted = c.l1[hash64(px)];
    Cache { l1: c.l1.update(hash64(px), px), l2: c.l2.update(hash1024(evicted), evicted) }
}

/// The promotion rule of the long-index opcode: the pixel at secondary slot
/// `h10` moves into the primary slot at the same hash, and the displaced
/// primary occupant moves to the secondary slot addressed by its own hash.
pub open spec fn cache_promote(c: Cache, h10: int) -> Cache {
    let px = c.l2[h10];
    let evicted = c.l1[h10 % 64];
    Cache { l1: c.l1.update(h10 % 64, px), l2: c.l2.update(hash1024(evicted), evicted) }
}

/// The executable cache state. It may be created fresh, handed into an
/// encoder or decoder, and extracted afterwards for reuse across calls on
/// related images.
pub struct State {
    l1: Vec<Pixel>,
    l2: Vec<Pixel>,
}

impl View for State {
    type V = Cache;

    closed spec fn view(&self) -> Cache {
        Cache { l1: self.l1@, l2: self.l2@ }
    }
}

impl State {
    /// The tables have their fixed sizes.
    pub open spec fn wf(&self) -> bool {
        cache_wf(self@)
    }

    /// A fresh state with every slot of both levels zero-filled.
    pub fn new() -> (s: State)
        ensures
            s@ == fresh_cache(),
            s.wf(),
    {
        let mut l1: Vec<Pixel> = Vec::new();
        let mut l2: Vec<Pixel> = Vec::new();
        while l1.len() < 64
            invariant
                l1@.len() <= 64,
                forall|j: int| 0 <= j < l1@.len() ==> l1@[j] == zero_pixel(),
            decreases 64 - l1@.len(),
        {
            l1.push(Pixel::new());
        }
        while l2.len() < 1024
            invariant
                l2@.len() <= 1024,
                forall|j: int| 0 <= j < l2@.len() ==> l2@[j] == zero_pixel(),
            decreases 1024 - l2@.len(),
        {
            l2.push(Pixel::new());
        }
        let s = State { l1, l2 };
        proof {
            assert(s@.l1 =~= fresh_cache().l1);
            assert(s@.l2 =~= fresh_cache().l2);
        }
        s
    }

    /// The primary slot addressed by hash `h`.
    pub fn get_l1(&self, h: u16) -> (px: Pixel)
        requires
            self.wf(),
        ensures
            px == self@.l1[h as int % 64],
    {
        self.l1[(h % 64) as usize]
    }

    /// The secondary slot addressed by hash `h`.
    pub fn get_l2(&self, h: u16) -> (px: Pixel)
        requires
            self.wf(),
        ensures
            px == self@.l2[h as int % 1024],
    {
        self.l2[(h % 1024) as usize]
    }

    /// Applies the insert-and-evict rule for `px`.
    pub fn insert(&mut self, px: Pixel)
        requires
            old(self).wf(),
        ensures
            final(self)@ == cache_insert(old(self)@, px),
            final(self).wf(),
    {
        let h = px.hash_index();
        let slot = (h % 64) as usize;
        let evicted = self.l1[slot];
        self.l1.set(slot, px);
        let eslot = (evicted.hash_index() % 1024) as usize;
        self.l2.set(eslot, evicted);
    }

    /// Applies the promotion rule for secondary slot `h10` and returns the
    /// promoted pixel.
    pub fn promote(&mut self, h10: u16) -> (px: Pixel)
        requires
            old(self).wf(),
            h10 < 1024,
        ensures
            px == old(self)@.l2[h10 as int],
            final(self)@ == cache_promote(old(self)@, h10 as int),
            final(self).wf(),
    {
        let px = self.l2[h10 as usize];
        let slot = (h10 % 64) as usize;
        let evicted = self.l1[slot];
        self.l1.set(slot, px);
        let eslot = (evicted.hash_index() % 1024) as usize;
        self.l2.set(eslot, evicted);
        px
    }
}

impl Default for State {
    /// A fresh zero-filled state.
    fn default() -> (s: State)
        ensures
            s@ == fresh_cache(),
            s.wf(),
    {
        State::new()
    }
}

} // verus!
