use vstd::prelude::*;

verus! {

/// One xorshift step on a 32-bit state: shift left by 13, right by 17 and left by 5, each
/// time folding the shifted state in with exclusive or.
pub open spec fn xorshift(x: u32) -> u32 {
    let a = x ^ (x << 13u32);
    let b = a ^ (a >> 17u32);
    b ^ (b << 5u32)
}

/// The state a generator seeded with `seed` starts from.
pub open spec fn seeded(seed: u32) -> u32 {
    if seed > 0 {
        xorshift(xorshift(2463534242u32 ^ seed))
    } else {
        xorshift(2463534242u32)
    }
}

/// Xorshift generator of 32-bit numbers.
#[derive(Clone, Debug)]
pub struct Xor128 {
    pub x: u32,
}

impl Xor128 {
    /// A generator seeded with `seed`; a seed of 0 leaves the fixed start state alone before
    /// the first step.
    pub fn new(seed: u32) -> (r: Self)
        ensures
            r.x == seeded(seed),
    {
        let mut ret = Xor128 { x: 2463534242 };
        if seed > 0 {
            ret.x = ret.x ^ seed;
            ret.nexti();
        }
        ret.nexti();
        ret
    }

    /// The next number of the sequence, which becomes the state.
    pub fn nexti(&mut self) -> (r: u32)
        ensures
            r == xorshift(old(self).x),
            final(self).x == r,
    {
        let a = self.x ^ (self.x << 13u32);
        let b = a ^ (a >> 17u32);
        self.x = b ^ (b << 5u32);
        self.x
    }
}

} // verus!
