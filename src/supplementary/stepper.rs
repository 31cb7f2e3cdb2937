use vstd::prelude::*;

verus! {

/// Counts from `current` up to `max` inclusive, in steps of `step`.
pub struct Stepper {
    pub current: i32,
    pub step: i32,
    pub max: i32,
}

impl Stepper {
    /// The current value, if it has not passed `max`; the count then moves on by
    /// `step`.
    pub fn next(&mut self) -> (r: Option<i32>)
        requires
            old(self).current <= old(self).max ==> i32::MIN <= old(self).current + old(self).step
                <= i32::MAX,
        ensures
            old(self).current > old(self).max ==> r.is_none() && *final(self) == *old(self),
            old(self).current <= old(self).max ==> r == Some(old(self).current) && final(self).current
                == old(self).current + old(self).step && final(self).step == old(self).step
                && final(self).max == old(self).max,
    {
        if self.current > self.max {
            return None;
        }
        let res = self.current;
        self.current = self.current + self.step;
        Some(res)
    }
}

} // verus!
