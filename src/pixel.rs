use vstd::prelude::*;

verus! {

/// One pixel: four channel bytes.
#[derive(Clone, Copy, PartialEq, Eq, Structural, Debug)]
pub struct Pixel {
    pub r: u8,
    pub g: u8,
    pub b: u8,
    pub a: u8,
}

/// Number of slots of the previous-pixel cache.
pub const CACHE_SIZE: usize = 64;

/// The slot of the cache that a pixel is kept in.
pub open spec fn hash_spec(p: Pixel) -> int {
    (3 * p.r + 5 * p.g + 7 * p.b + 11 * p.a) % 64
}

/// The value every cache slot holds before the first pixel.
pub open spec fn sentinel() -> Pixel {
    Pixel { r: 0, g: 0, b: 0, a: 0 }
}

/// The "previous pixel" before the first pixel of a stream.
pub open spec fn initial_prev() -> Pixel {
    Pixel { r: 0, g: 0, b: 0, a: 255 }
}

/// The cache before the first pixel: every slot holds the sentinel.
pub open spec fn initial_cache() -> Seq<Pixel> {
    Seq::new(64, |i: int| sentinel())
}

/// The cache after `p` has been stored.
pub open spec fn cache_store(cache: Seq<Pixel>, p: Pixel) -> Seq<Pixel> {
    cache.update(hash_spec(p), p)
}

/// Computes the cache slot of a pixel.
pub fn hash(p: Pixel) -> (r: usize)
    ensures
        r == hash_spec(p),
        r < 64,
{
    (((p.r as u32) * 3 + (p.g as u32) * 5 + (p.b as u32) * 7 + (p.a as u32) * 11) % 64) as usize
}

/// The previous-pixel cache: 64 slots, each holding a pixel.
pub struct PixelCache {
    slots: Vec<Pixel>,
}

impl View for PixelCache {
    type V = Seq<Pixel>;

    closed spec fn view(&self) -> Seq<Pixel> {
        self.slots@
    }
}

impl PixelCache {
    /// The cache always has exactly 64 slots.
    pub open spec fn wf(&self) -> bool {
        self@.len() == 64
    }

    /// A cache whose every slot holds the sentinel pixel (0,0,0,0).
    pub fn new() -> (r: PixelCache)
        ensures
            r.wf(),
            r@ == initial_cache(),
    {
        let mut slots: Vec<Pixel> = Vec::new();
        let mut i: usize = 0;
        while i < CACHE_SIZE
            invariant
                i <= 64,
                slots@ == Seq::new(i as nat, |j: int| sentinel()),
            decreases 64 - i,
        {
            slots.push(Pixel { r: 0, g: 0, b: 0, a: 0 });
            i += 1;
            assert(slots@ =~= Seq::new(i as nat, |j: int| sentinel()));
        }
        PixelCache { slots }
    }

    /// The pixel held in slot `i`.
    pub fn get(&self, i: usize) -> (r: Pixel)
        requires
            self.wf(),
            i < 64,
        ensures
            r == self@[i as int],
    {
        self.slots[i]
    }

    /// Whether the slot of `p` holds `p`.
    pub fn lookup(&self, p: Pixel) -> (r: bool)
        requires
            self.wf(),
        ensures
            r == (self@[hash_spec(p)] == p),
    {
        let h = hash(p);
        self.slots[h] == p
    }

    /// Overwrites the slot of `p` with `p`.
    pub fn store(&mut self, p: Pixel)
        requires
            old(self).wf(),
        ensures
            final(self).wf(),
            final(self)@ == cache_store(old(self)@, p),
    {
        let h = hash(p);
        self.slots.set(h, p);
    }
}

} // verus!
