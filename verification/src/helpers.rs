//! Small arithmetic helpers shared by the whole simulation, and the one
//! source of randomness.

use vstd::prelude::*;

verus! {

/// The value `base + delta`, kept inside what a `usize` can hold.
pub open spec fn bounded_sum(base: int, delta: int) -> int {
    if base + delta < 0 {
        0
    } else if base + delta > usize::MAX {
        usize::MAX as int
    } else {
        base + delta
    }
}

/// The value `base + delta`, kept inside `0 ..= max`.
pub open spec fn bounded_sum_max(base: int, delta: int, max: int) -> int {
    if bounded_sum(base, delta) > max {
        max
    } else {
        bounded_sum(base, delta)
    }
}

/// Whether a draw decides for the event that it is drawn for: it does if
/// it is 0.
pub open spec fn hit(draw: int) -> bool {
    draw == 0
}

/// Whether `yes` can come of one chance in `odds` plus one: of a draw from
/// `0 ..= odds` that decides for the event if it is 0.  With odds of 0 the
/// event is certain.
pub open spec fn one_in(odds: int, yes: bool) -> bool {
    exists|draw: int| 0 <= draw <= odds && yes == #[trigger] hit(draw)
}

/// Adding a signed offset to an unsigned quantity without ever wrapping.
pub trait BoundedSignedAdd {
    /// Adds `val`, stopping at the ends of the type's range.
    fn add_bounded(&mut self, val: isize);

    /// Adds `val`, stopping at zero below and at `max` above.
    fn add_bounded_max(&mut self, val: isize, max: usize);
}

impl BoundedSignedAdd for usize {
    fn add_bounded(&mut self, val: isize)
        ensures
            *final(self) == bounded_sum(*old(self) as int, val as int),
    {
        if val < 0 {
            let back: usize = if val == isize::MIN {
                isize::MAX as usize + 1
            } else {
                (-val) as usize
            };
            *self = self.saturating_sub(back)
        } else {
            *self = self.saturating_add(val as usize)
        }
    }

    fn add_bounded_max(&mut self, val: isize, max: usize)
        ensures
            *final(self) == bounded_sum_max(*old(self) as int, val as int, max as int),
    {
        self.add_bounded(val);
        if *self > max {
            *self = max
        }
    }
}

/// Draws a uniformly distributed number from a half-open range with
/// `rand::Rng::gen_range` on the thread-local generator.  The draw lies in the
/// range; nothing else is known of it, and two draws from one range may
/// differ.  An empty range makes `gen_range` panic, so it is excluded.
#[verifier::external_body]
pub fn rand_range(range: std::ops::Range<usize>) -> (r: usize)
    requires
        range.start < range.end,
    ensures
        range.start <= r < range.end,
{
    rand::Rng::gen_range(&mut rand::thread_rng(), range)
}

/// Draws a uniformly distributed number from `0 ..= max`.
pub fn rand_upto(max: usize) -> (r: usize)
    ensures
        r <= max,
{
    if max == usize::MAX {
        rand_range(0..max)
    } else {
        rand_range(0..max + 1)
    }
}

/// Tosses a fair coin.
pub fn rand_coin() -> bool {
    rand_range(0..2) == 0
}

} // verus!
