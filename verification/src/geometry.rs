use vstd::prelude::*;

verus! {

/// How far the target image has to move to sit on top of the reference.
#[derive(Clone, Copy, Debug, Default, PartialEq, Eq, Structural, Hash)]
pub struct Shift {
    pub x: i32,
    pub y: i32,
}

impl Shift {
    /// No movement at all.
    pub fn zero() -> (shift: Self)
        ensures
            shift.x == 0,
            shift.y == 0,
    {
        Shift { x: 0, y: 0 }
    }

    pub fn new(x: i32, y: i32) -> (shift: Self)
        ensures
            shift.x == x,
            shift.y == y,
    {
        Shift { x, y }
    }

    /// Carries a shift from one pyramid level to the next finer one, where the
    /// same displacement spans twice as many pixels.
    pub fn doubled(self) -> (shift: Self)
        requires
            i32::MIN <= 2 * self.x <= i32::MAX,
            i32::MIN <= 2 * self.y <= i32::MAX,
        ensures
            shift.x == 2 * self.x,
            shift.y == 2 * self.y,
    {
        Self::new(self.x * 2, self.y * 2)
    }

    pub fn offset(self, x: i32, y: i32) -> (shift: Self)
        requires
            i32::MIN <= self.x + x <= i32::MAX,
            i32::MIN <= self.y + y <= i32::MAX,
        ensures
            shift.x == self.x + x,
            shift.y == self.y + y,
    {
        Self::new(self.x + x, self.y + y)
    }
}

} // verus!
