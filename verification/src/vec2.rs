use vstd::prelude::*;

verus! {

/// A point or extent on the integer grid: `x` grows to the right, `y` grows upwards.
#[derive(Clone, Copy, PartialEq, Eq, Hash, Debug, Structural)]
pub struct I64Vec2 {
    pub x: i64,
    pub y: i64,
}

impl I64Vec2 {
    pub fn new(x: i64, y: i64) -> (r: Self)
        ensures
            r.x == x,
            r.y == y,
    {
        I64Vec2 { x, y }
    }

    /// Component-wise sum, `None` where a component leaves the range of `i64`.
    pub fn checked_add(self, other: Self) -> (r: Option<Self>)
        ensures
            r == (if i64::MIN <= self.x + other.x <= i64::MAX && i64::MIN <= self.y + other.y
                <= i64::MAX {
                Some(I64Vec2 { x: (self.x + other.x) as i64, y: (self.y + other.y) as i64 })
            } else {
                None::<I64Vec2>
            }),
    {
        match (self.x.checked_add(other.x), self.y.checked_add(other.y)) {
            (Some(x), Some(y)) => Some(I64Vec2 { x, y }),
            _ => None,
        }
    }
}

/// Shorthand for `I64Vec2::new`.
pub fn i64vec2(x: i64, y: i64) -> (r: I64Vec2)
    ensures
        r == (I64Vec2 { x, y }),
{
    I64Vec2 { x, y }
}

} // verus!
