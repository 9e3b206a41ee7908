use vstd::prelude::*;

verus! {

/// A cell position on the board: `x` counts columns from the left, `y` rows
/// from the bottom, both from zero.
#[derive(Clone, Copy, Debug, PartialEq, Eq, Structural, Hash)]
pub struct Coordinates {
    pub x: u16,
    pub y: u16,
}

/// `a` and `b` are distinct cells that touch by a side or a corner.
pub open spec fn adjacent(a: Coordinates, b: Coordinates) -> bool {
    &&& a != b
    &&& -1 <= a.x - b.x <= 1
    &&& -1 <= a.y - b.y <= 1
}

/// The position `(x + dx, y + dy)`, when both components fit a `u16`.
pub open spec fn shifted(c: Coordinates, dx: int, dy: int) -> Option<Coordinates> {
    if 0 <= c.x + dx <= u16::MAX && 0 <= c.y + dy <= u16::MAX {
        Some(Coordinates { x: (c.x + dx) as u16, y: (c.y + dy) as u16 })
    } else {
        None
    }
}

impl Coordinates {
    pub fn new(x: u16, y: u16) -> (r: Coordinates)
        ensures
            r.x == x,
            r.y == y,
    {
        Coordinates { x, y }
    }

    /// Moves by a delta; a result that would leave the `u16` range is
    /// rejected rather than wrapped.
    pub fn offset(self, dx: i8, dy: i8) -> (r: Option<Coordinates>)
        ensures
            r == shifted(self, dx as int, dy as int),
    {
        let nx: i32 = self.x as i32 + dx as i32;
        let ny: i32 = self.y as i32 + dy as i32;
        if nx < 0 || nx > 65535 || ny < 0 || ny > 65535 {
            None
        } else {
            Some(Coordinates { x: nx as u16, y: ny as u16 })
        }
    }
}

} // verus!
