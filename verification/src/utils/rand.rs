//! A cheap random number generator for coin flips.

use vstd::prelude::*;

verus! {

/// Where a generator starts.
pub const SEED: u64 = 0x9E37_79B9_7F4A_7C15;

/// What stands in for a state of zero, from which there would be no way out.
pub const NONZERO: u64 = 0xDEAD_BEEF_CAFE_F00D;

/// The state after `x`: three shifts, each mixed in.
pub open spec fn xorshift(x: u64) -> u64 {
    let a = if x == 0 {
        NONZERO
    } else {
        x
    };
    let b = a ^ (a << 13u64);
    let c = b ^ (b >> 7u64);
    c ^ (c << 17u64)
}

/// No state but zero is followed by zero, and no two states but zero by the same one: the generator
/// goes round without getting stuck.
pub proof fn states_do_not_run_together(x: u64, y: u64)
    requires
        x != 0,
        y != 0,
    ensures
        xorshift(x) != 0,
        xorshift(x) == xorshift(y) ==> x == y,
{
    assert(x ^ (x << 13u64) != 0) by (bit_vector)
        requires
            x != 0,
    ;
    assert(x ^ (x << 13u64) == y ^ (y << 13u64) ==> x == y) by (bit_vector);
    let a = x ^ (x << 13u64);
    let b = y ^ (y << 13u64);
    assert(a ^ (a >> 7u64) != 0) by (bit_vector)
        requires
            a != 0,
    ;
    assert(a ^ (a >> 7u64) == b ^ (b >> 7u64) ==> a == b) by (bit_vector);
    let c = a ^ (a >> 7u64);
    let d = b ^ (b >> 7u64);
    assert(c ^ (c << 17u64) != 0) by (bit_vector)
        requires
            c != 0,
    ;
    assert(c ^ (c << 17u64) == d ^ (d << 17u64) ==> c == d) by (bit_vector);
}

/// A 64-bit xorshift generator. Not for secrets.
#[derive(Clone, Copy, Debug)]
pub struct Rng {
    state: u64,
}

impl Rng {
    pub closed spec fn state(&self) -> u64 {
        self.state
    }

    pub fn new() -> (r: Self)
        ensures
            r.state() == SEED,
    {
        Rng { state: SEED }
    }

    /// The next number, which is also the next state.
    pub fn fast_rand(&mut self) -> (r: u64)
        ensures
            r == xorshift(old(self).state()),
            final(self).state() == r,
            old(self).state() != 0 ==> {
                let a = old(self).state();
                let b = a ^ (a << 13u64);
                let c = b ^ (b >> 7u64);
                r == c ^ (c << 17u64)
            },
    {
        let mut x: u64 = self.state;
        if x == 0 {
            x = NONZERO;
        }
        x = x ^ (x << 13u64);
        x = x ^ (x >> 7u64);
        x = x ^ (x << 17u64);
        self.state = x;
        x
    }
}

} // verus!
