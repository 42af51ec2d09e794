//! The dot value type and the proximity predicate used for hit-testing.

use vstd::prelude::*;

verus! {

/// Greatest axis distance at which a dot still counts as near a pointer
/// coordinate. Tuned so the small squares are easy to grab.
pub const NEARNESS: i32 = 7;

/// A dot on the canvas: an identity and a 2D position. Positions are plain
/// integers in canvas coordinates.
#[derive(Debug, Clone, Copy, PartialEq, Eq, Structural)]
pub struct ADot {
    pub id: i32,
    pub x: i32,
    pub y: i32,
}

/// A dot is near a pointer coordinate when the distance along either axis
/// is below `NEARNESS`. The disjunction is the chosen policy: a dot is
/// grabbable from anywhere on the horizontal or vertical band through it.
pub open spec fn spec_near(d: ADot, px: int, py: int) -> bool {
    ||| (d.x - px < NEARNESS && px - d.x < NEARNESS)
    ||| (d.y - py < NEARNESS && py - d.y < NEARNESS)
}

impl ADot {
    /// Decides the proximity predicate for a pointer coordinate.
    pub fn is_near(&self, x: u32, y: u32) -> (r: bool)
        ensures
            r == spec_near(*self, x as int, y as int),
    {
        let dx: i64 = (self.x as i64) - (x as i64);
        let dy: i64 = (self.y as i64) - (y as i64);
        let n: i64 = NEARNESS as i64;
        (dx < n && -dx < n) || (dy < n && -dy < n)
    }

    pub fn get_x(&self) -> (r: i32)
        ensures
            r == self.x,
    {
        self.x
    }

    pub fn get_y(&self) -> (r: i32)
        ensures
            r == self.y,
    {
        self.y
    }
}

} // verus!
