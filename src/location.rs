use vstd::prelude::*;

verus! {

/// A position on the board: `y` is the row, `x` the column.
#[derive(Clone, Copy, Debug, PartialEq, Eq, Hash, Structural)]
pub struct Location {
    pub y: i32,
    pub x: i32,
}

pub open spec fn abs_int(v: int) -> int {
    if v < 0 { -v } else { v }
}

/// Manhattan distance between two points given by their coordinates.
pub open spec fn manhattan(y1: int, x1: int, y2: int, x2: int) -> int {
    abs_int(y1 - y2) + abs_int(x1 - x2)
}

impl Location {
    pub open spec fn dist(self, other: Location) -> int {
        manhattan(self.y as int, self.x as int, other.y as int, other.x as int)
    }

    /// Manhattan distance to `other`.
    pub fn distance_to(&self, other: &Location) -> (r: u64)
        ensures
            r as int == self.dist(*other),
    {
        let dy: i64 = self.y as i64 - other.y as i64;
        let dx: i64 = self.x as i64 - other.x as i64;
        let ay: i64 = if dy < 0 { -dy } else { dy };
        let ax: i64 = if dx < 0 { -dx } else { dx };
        (ay + ax) as u64
    }
}

} // verus!
