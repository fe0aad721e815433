use vstd::prelude::*;

verus! {

/// A point with integer pixel coordinates.
#[derive(Debug, Clone, Copy, PartialEq, Eq, Structural)]
pub struct Vec2 {
    pub x: i32,
    pub y: i32,
}

impl Vec2 {
    pub fn new(value_x: i32, value_y: i32) -> (r: Vec2)
        ensures
            r.x == value_x,
            r.y == value_y,
    {
        Vec2 { x: value_x, y: value_y }
    }
}

} // verus!
