//! The generator behind `math::random`.
use vstd::prelude::*;

verus! {

/// What the generator starts from.
pub const FIRST_SEED: u64 = 0x2545_F491_4F6C_DD1D;

/// The state after one more number.
pub open spec fn shifted(x: u64) -> u64 {
    let a = x ^ (x << 13u64);
    let b = a ^ (a >> 7u64);
    b ^ (b << 17u64)
}

/// The generator, which is never at zero.
pub struct Random {
    pub state: u64,
}

impl Random {
    pub fn new() -> (r: Random)
        ensures
            r.state == FIRST_SEED,
    {
        Random { state: FIRST_SEED }
    }

    /// Start over from a number.
    pub fn seed(&mut self, n: u64)
        ensures
            final(self).state == n | 1,
            final(self).state != 0,
    {
        assert(n | 1 != 0) by (bit_vector);
        self.state = n | 1;
    }

    /// The next number, out of two to the fifty-third.
    pub fn next(&mut self) -> (r: u64)
        ensures
            final(self).state == shifted(old(self).state),
            r == shifted(old(self).state) >> 11u64,
            r < 0x20_0000_0000_0000,
            old(self).state != 0 ==> final(self).state != 0,
    {
        let mut x: u64 = self.state;
        let ghost start = x;
        x = x ^ (x << 13u64);
        x = x ^ (x >> 7u64);
        x = x ^ (x << 17u64);
        assert(x >> 11u64 < 0x20_0000_0000_0000) by (bit_vector);
        proof {
            lemma_never_zero(start);
        }
        self.state = x;
        x >> 11u64
    }
}

/// A generator that is not at zero never gets there.
pub proof fn lemma_never_zero(x: u64)
    ensures
        x != 0 ==> shifted(x) != 0,
{
    assert(x != 0 ==> ({
        let a = x ^ (x << 13u64);
        let b = a ^ (a >> 7u64);
        b ^ (b << 17u64)
    }) != 0) by (bit_vector);
}

} // verus!
