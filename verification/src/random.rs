//! A small, fast, insecure pseudo-random generator (xorshift128).

use vstd::prelude::*;

verus! {

/// Xorshift generator with 128 bits of state.
#[derive(Clone, Copy, Debug)]
pub struct XorShift {
    x: u32,
    y: u32,
    z: u32,
    w: u32,
}

impl XorShift {
    /// The four state words, in order.
    pub closed spec fn state(self) -> (u32, u32, u32, u32) {
        (self.x, self.y, self.z, self.w)
    }

    /// The state word that follows from shifting `x` and `w` together.
    pub open spec fn mix(x: u32, w: u32) -> u32 {
        (w ^ (w >> 19u32)) ^ ((x ^ (x << 11u32)) ^ ((x ^ (x << 11u32)) >> 8u32))
    }

    /// Creates a generator with the default seed.
    pub fn new() -> (r: XorShift)
        ensures
            r.state() == (123_456_789u32, 362_436_069u32, 521_288_629u32, 88_675_123u32),
    {
        XorShift { x: 123_456_789, y: 362_436_069, z: 521_288_629, w: 88_675_123 }
    }

    /// Draws the next value: the state rotates one word and the new last
    /// word mixes the dropped word into the previous last one.
    pub fn next_u32(&mut self) -> (r: u32)
        ensures
            final(self).state() == (
                old(self).state().1,
                old(self).state().2,
                old(self).state().3,
                XorShift::mix(old(self).state().0, old(self).state().3),
            ),
            r == XorShift::mix(old(self).state().0, old(self).state().3),
    {
        let x = self.x;
        let t = x ^ (x << 11);
        self.x = self.y;
        self.y = self.z;
        self.z = self.w;
        let v = self.w;
        self.w = (v ^ (v >> 19)) ^ (t ^ (t >> 8));
        self.w
    }
}

} // verus!
