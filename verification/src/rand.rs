use vstd::prelude::*;

verus! {

/// What `below(upper_bound_excl)` may return: `0` where the bound leaves no
/// choice (`0` or `1`), else a value under the bound.
pub open spec fn spec_below(r: u64, upper_bound_excl: u64) -> bool {
    if upper_bound_excl <= 1 {
        r == 0
    } else {
        r < upper_bound_excl
    }
}

/// The number that `rand.below(n)` returns: `0` where `n` is `0` or `1`, else the
/// generator's next raw number modulo `n`.
pub open spec fn spec_draw<R: Rand>(rand: R, n: u64) -> u64 {
    if n <= 1 {
        0
    } else {
        rand.spec_next() % n
    }
}

/// The state of `rand` once `rand.below(n)` has returned: advanced by one number, or
/// unchanged where `n` is `0` or `1`.
pub open spec fn spec_after_draw<R: Rand>(rand: R, n: u64) -> R {
    if n <= 1 {
        rand
    } else {
        rand.spec_advance()
    }
}

/// A source of random numbers: a generator whose state decides the next number and the
/// state that follows it.
pub trait Rand: Sized {
    /// The number that `next` returns from this state of the generator.
    spec fn spec_next(&self) -> u64;

    /// The state of the generator once `next` has returned.
    spec fn spec_advance(&self) -> Self;

    /// The next raw random number.
    fn next(&mut self) -> (r: u64)
        ensures
            r == old(self).spec_next(),
            *final(self) == old(self).spec_advance(),
    ;

    /// A random number below `upper_bound_excl`: the next raw number modulo the bound,
    /// or `0` without drawing where the bound is `0` or `1`.
    fn below(&mut self, upper_bound_excl: u64) -> (r: u64)
        ensures
            spec_below(r, upper_bound_excl),
            upper_bound_excl > 1 ==> r == old(self).spec_next() % upper_bound_excl,
            upper_bound_excl > 1 ==> *final(self) == old(self).spec_advance(),
            upper_bound_excl <= 1 ==> *final(self) == *old(self),
    {
        if upper_bound_excl <= 1 {
            0
        } else {
            self.next() % upper_bound_excl
        }
    }

    /// A random number in `lower_bound_incl..=upper_bound_incl`: the lower bound plus
    /// the next raw number modulo the width of the range, or the lower bound without
    /// drawing where the range holds one number.
    fn between(&mut self, lower_bound_incl: u64, upper_bound_incl: u64) -> (r: u64)
        requires
            lower_bound_incl <= upper_bound_incl,
            upper_bound_incl - lower_bound_incl < u64::MAX,
        ensures
            lower_bound_incl <= r <= upper_bound_incl,
            lower_bound_incl < upper_bound_incl ==> r == lower_bound_incl + old(self).spec_next()
                % ((upper_bound_incl - lower_bound_incl + 1) as u64),
            lower_bound_incl < upper_bound_incl ==> *final(self) == old(self).spec_advance(),
            lower_bound_incl == upper_bound_incl ==> *final(self) == *old(self),
    {
        lower_bound_incl + self.below(upper_bound_incl - lower_bound_incl + 1)
    }
}

/// One step of the xorshift64 generator.
pub open spec fn spec_xorshift(x: u64) -> u64 {
    let a = x ^ (x << 13u64);
    let b = a ^ (a >> 7u64);
    b ^ (b << 17u64)
}

/// The state that a seed gives: xorshift cannot leave the zero state, so zero is replaced.
pub open spec fn spec_seed_state(seed: u64) -> u64 {
    if seed == 0 {
        0x2545_f491_4f6c_dd1d
    } else {
        seed
    }
}

/// The standard random number generator: xorshift64.
#[derive(Clone, Copy, Debug)]
pub struct StdRand {
    state: u64,
}

impl StdRand {
    /// The generator's current state.
    pub closed spec fn spec_state(&self) -> u64 {
        self.state
    }

    /// A generator seeded with `seed`.
    pub fn new(seed: u64) -> (r: Self)
        ensures
            r.spec_state() == spec_seed_state(seed),
    {
        StdRand { state: if seed == 0 { 0x2545_f491_4f6c_dd1d } else { seed } }
    }
}

impl Rand for StdRand {
    closed spec fn spec_next(&self) -> u64 {
        spec_xorshift(self.state)
    }

    closed spec fn spec_advance(&self) -> Self {
        StdRand { state: spec_xorshift(self.state) }
    }

    fn next(&mut self) -> (r: u64)
        ensures
            r == spec_xorshift(old(self).spec_state()),
            final(self).spec_state() == r,
    {
        let x = self.state;
        let a = x ^ (x << 13u64);
        let b = a ^ (a >> 7u64);
        let c = b ^ (b << 17u64);
        self.state = c;
        c
    }
}

} // verus!
