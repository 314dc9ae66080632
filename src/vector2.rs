use vstd::prelude::*;

verus! {

/// A pair of coordinates or a step between cells: `x` is the column, `y` the row.
#[derive(Clone, Copy, PartialEq, Eq, Structural, Debug)]
pub struct Vector2<T> {
    pub x: T,
    pub y: T,
}

impl<T> Vector2<T> {
    pub fn new(x: T, y: T) -> (r: Self)
        ensures
            r.x == x,
            r.y == y,
    {
        Vector2 { x, y }
    }
}

impl Vector2<isize> {
    /// Component-wise sum.
    pub fn add(self, other: Vector2<isize>) -> (r: Vector2<isize>)
        requires
            isize::MIN <= self.x + other.x <= isize::MAX,
            isize::MIN <= self.y + other.y <= isize::MAX,
        ensures
            r.x == self.x + other.x,
            r.y == self.y + other.y,
    {
        Vector2 { x: self.x + other.x, y: self.y + other.y }
    }

    /// Component-wise difference.
    pub fn sub(self, other: Vector2<isize>) -> (r: Vector2<isize>)
        requires
            isize::MIN <= self.x - other.x <= isize::MAX,
            isize::MIN <= self.y - other.y <= isize::MAX,
        ensures
            r.x == self.x - other.x,
            r.y == self.y - other.y,
    {
        Vector2 { x: self.x - other.x, y: self.y - other.y }
    }

    /// Both components multiplied by `scaler`.
    pub fn mul(self, scaler: isize) -> (r: Vector2<isize>)
        requires
            isize::MIN <= self.x * scaler <= isize::MAX,
            isize::MIN <= self.y * scaler <= isize::MAX,
        ensures
            r.x == self.x * scaler,
            r.y == self.y * scaler,
    {
        Vector2 { x: self.x * scaler, y: self.y * scaler }
    }
}

} // verus!
