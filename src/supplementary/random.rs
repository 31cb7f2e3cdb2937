use vstd::prelude::*;

verus! {

/// A linear congruential generator of pseudo-random integers; for demonstrations,
/// not for anything that needs unpredictability.
pub struct RandomGen {
    cur: u64,
    mul: u64,
    inc: u64,
    modulo: u64,
}

/// The generator's next state after `cur`.
pub open spec fn next_state(cur: u64) -> u64 {
    ((cur * 56394237 + 346423496) % 25254463563) as u64
}

impl RandomGen {
    /// The current state.
    pub closed spec fn state(&self) -> u64 {
        self.cur
    }

    /// The constants are the generator's own.
    pub closed spec fn wf(&self) -> bool {
        &&& self.mul == 56394237
        &&& self.inc == 346423496
        &&& self.modulo == 25254463563
    }

    /// The next step does not overflow; it always holds after a first step.
    pub open spec fn can_step(&self) -> bool {
        self.state() * 56394237 + 346423496 <= u64::MAX
    }

    /// A generator whose state starts at `seed`.
    pub fn new(seed: usize) -> (r: Self)
        ensures
            r.wf(),
            r.state() == seed,
    {
        RandomGen { cur: seed as u64, mul: 56394237, inc: 346423496, modulo: 25254463563 }
    }

    /// Advances the state and returns it reduced below `max`.
    pub fn rand_usize(&mut self, max: usize) -> (r: usize)
        requires
            old(self).wf(),
            old(self).can_step(),
            max > 0,
        ensures
            final(self).wf(),
            final(self).can_step(),
            final(self).state() == next_state(old(self).state()),
            r as int == next_state(old(self).state()) as int % max as int,
            r < max,
    {
        self.cur = (self.cur * self.mul + self.inc) % self.modulo;
        assert(self.cur < 25254463563);
        assert(self.cur * 56394237 + 346423496 <= u64::MAX) by (nonlinear_arith)
            requires
                self.cur < 25254463563,
        ;
        (self.cur % (max as u64)) as usize
    }
}

} // verus!
