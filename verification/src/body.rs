//! Bodies: where an organism is, how large it is, and how its colour
//! drifts from one generation to the next.

use vstd::prelude::*;

use crate::fixed::{fx_add, isqrt, root, sat, UNIT};
use crate::helpers::{bounded_sum_max, rand_range, BoundedSignedAdd};
use crate::structs::{Body, Pos};

verus! {

/// Fresh organisms appear with both coordinates below this.
pub const SPAWN_SPAN: i64 = 450_000_000;

/// Whether `after` is a colour channel that a mutation can make of
/// `before`: moved by -16 to 15, within 0 to 255.
pub open spec fn tinted(before: usize, after: usize) -> bool {
    exists|drift: int| -16 <= drift < 16 && after == #[trigger] bounded_sum_max(before as int, drift, 255)
}

/// The side of the square that is left of a square of side `size` when the
/// area of a square of side `removal` is taken away, rounded down; zero if
/// more is taken than there is.
pub open spec fn remainder(size: int, removal: int) -> int {
    if size * size >= removal * removal {
        root(size * size - removal * removal)
    } else {
        0
    }
}

/// `body` after the area of a square of side `removal` was taken from it:
/// it has the size that is left, and keeps its centre.
pub open spec fn reduced(body: Body, removal: int) -> Body {
    let rest = remainder(body.size as int, removal);
    let shift = (body.size - rest) / 2;
    Body {
        size: rest as i64,
        pos: Pos { x: slid(body.pos.x as int, shift) as i64, y: slid(body.pos.y as int, shift) as i64 },
        ..body
    }
}

/// A coordinate moved by `shift`.  Like every sum of fixed-point numbers
/// it stops at the ends of the `i64` range.
pub open spec fn slid(coordinate: int, shift: int) -> int {
    sat(coordinate + shift)
}

impl Pos {
    /// A position drawn from the square where fresh organisms appear.
    pub fn new() -> (pos: Pos)
        ensures
            0 <= pos.x < SPAWN_SPAN,
            0 <= pos.y < SPAWN_SPAN,
    {
        Pos {
            x: rand_range(0..450_000_000) as i64,
            y: rand_range(0..450_000_000) as i64,
        }
    }
}

impl Body {
    /// The invariant of a body: a colour of three channels up to 255, a size
    /// that is not negative, and a heading of at most a half turn either
    /// way.
    pub open spec fn wf(&self) -> bool {
        &&& self.colour.wf()
        &&& 0 <= self.size
        &&& -UNIT <= self.angle <= UNIT
    }

    /// Whether the body is well formed.
    pub fn check(&self) -> (ok: bool)
        ensures
            ok == self.wf(),
    {
        self.colour.r <= 255 && self.colour.g <= 255 && self.colour.b <= 255 && 0 <= self.size
            && -UNIT <= self.angle && self.angle <= UNIT
    }

    /// Lets each colour channel drift by a number drawn from -16 to 15,
    /// staying within 0 to 255.
    pub fn mutate(&mut self)
        ensures
            tinted(old(self).colour.r, final(self).colour.r),
            tinted(old(self).colour.g, final(self).colour.g),
            tinted(old(self).colour.b, final(self).colour.b),
            final(self).colour.wf(),
            *final(self) == (Body { colour: final(self).colour, ..*old(self) }),
    {
        let red: isize = rand_range(0..32) as isize - 16;
        self.colour.r.add_bounded_max(red, 255);
        assert(self.colour.r == bounded_sum_max(old(self).colour.r as int, red as int, 255));
        let green: isize = rand_range(0..32) as isize - 16;
        self.colour.g.add_bounded_max(green, 255);
        assert(self.colour.g == bounded_sum_max(old(self).colour.g as int, green as int, 255));
        let blue: isize = rand_range(0..32) as isize - 16;
        self.colour.b.add_bounded_max(blue, 255);
        assert(self.colour.b == bounded_sum_max(old(self).colour.b as int, blue as int, 255));
    }

    /// Takes the area of a square of side `removal` away from the body.
    ///
    /// The new size is the side of the square that has the area left,
    /// rounded down, or zero if more is taken than there is.  The body keeps
    /// its centre: both coordinates grow by half of what the size lost.
    pub fn remove(&mut self, removal: i64)
        requires
            old(self).wf(),
        ensures
            *final(self) == reduced(*old(self), removal as int),
            final(self).wf(),
            final(self).size <= old(self).size,
    {
        assert(0 <= self.size * self.size <= 0x7fff_ffff_ffff_ffff * 0x7fff_ffff_ffff_ffff)
            by (nonlinear_arith)
            requires
                0 <= self.size <= 0x7fff_ffff_ffff_ffff,
        ;
        assert(0 <= removal * removal <= 0x8000_0000_0000_0000 * 0x8000_0000_0000_0000)
            by (nonlinear_arith)
            requires
                -0x8000_0000_0000_0000 <= removal <= 0x7fff_ffff_ffff_ffff,
        ;
        let whole: i128 = (self.size as i128) * (self.size as i128);
        let taken: i128 = (removal as i128) * (removal as i128);
        let new_size: u64 = if whole >= taken {
            isqrt((whole - taken) as u128)
        } else {
            0
        };
        assert(new_size <= self.size) by (nonlinear_arith)
            requires
                0 <= new_size,
                0 <= self.size,
                new_size * new_size <= self.size * self.size,
        ;
        let shift: i64 = (self.size - new_size as i64) / 2;
        self.pos.x = fx_add(self.pos.x, shift);
        self.pos.y = fx_add(self.pos.y, shift);
        self.size = new_size as i64;
    }
}

} // verus!
