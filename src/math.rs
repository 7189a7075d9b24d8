use vstd::prelude::*;

verus! {

/// Integer coordinate type of the toolkit.
pub type Integer = i32;

/// A pair of integer coordinates (a pixel position or a pixel size).
#[derive(Debug, Clone, Copy, PartialEq, Eq, Structural)]
pub struct IntPair {
    pub x: Integer,
    pub y: Integer,
}

/// Whether `v` fits in the coordinate type.
pub open spec fn fits(v: int) -> bool {
    Integer::MIN <= v <= Integer::MAX
}

impl IntPair {
    pub fn new(x: Integer, y: Integer) -> (r: Self)
        ensures
            r.x == x,
            r.y == y,
    {
        Self { x, y }
    }

    /// Component-wise sum.
    pub fn add(&self, rhs: &IntPair) -> (r: Self)
        requires
            fits(self.x + rhs.x),
            fits(self.y + rhs.y),
        ensures
            r.x == self.x + rhs.x,
            r.y == self.y + rhs.y,
    {
        Self { x: self.x + rhs.x, y: self.y + rhs.y }
    }

    /// Component-wise difference.
    pub fn sub(&self, rhs: &IntPair) -> (r: Self)
        requires
            fits(self.x - rhs.x),
            fits(self.y - rhs.y),
        ensures
            r.x == self.x - rhs.x,
            r.y == self.y - rhs.y,
    {
        Self { x: self.x - rhs.x, y: self.y - rhs.y }
    }

    /// Both components scaled by `rhs`.
    pub fn times(&self, rhs: Integer) -> (r: Self)
        requires
            fits(self.x * rhs),
            fits(self.y * rhs),
        ensures
            r.x == self.x * rhs,
            r.y == self.y * rhs,
    {
        Self { x: self.x * rhs, y: self.y * rhs }
    }
}

} // verus!
