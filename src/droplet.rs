use vstd::prelude::*;

use crate::location::Location;

verus! {

/// Identity of a droplet: an id scoped by the process that owns it.
#[derive(Clone, Copy, Debug, PartialEq, Eq, Hash, Structural)]
pub struct DropletId {
    pub id: usize,
    pub process_id: usize,
}

/// A tracked droplet: its identity, the top-left corner of its footprint,
/// the footprint's extent, its volume in whole units, and where it is headed.
#[derive(Clone, Copy, Debug, PartialEq, Eq, Structural)]
pub struct Droplet {
    pub id: DropletId,
    pub location: Location,
    pub dimensions: Location,
    pub volume: i32,
    pub destination: Option<Location>,
}

/// An observed droplet-like region, without identity.
#[derive(Clone, Copy, Debug, PartialEq, Eq, Structural)]
pub struct Blob {
    pub location: Location,
    pub dimensions: Location,
    pub volume: i32,
}

/// No two droplets of `s` share an id.
pub open spec fn ids_unique(s: Seq<Droplet>) -> bool {
    forall|a: int, b: int| 0 <= a < b < s.len() ==> (#[trigger] s[a]).id != (#[trigger] s[b]).id
}

/// Signed Chebyshev distance from point `(y, x)` to the box whose corners are
/// `(y1, x1)` and `(y2, x2)`, corners included: at most zero inside the box or
/// on its border, positive outside.
pub open spec fn box_distance(y: int, x: int, y1: int, x1: int, y2: int, x2: int) -> int {
    let a = if y1 - y >= y - y2 { y1 - y } else { y - y2 };
    let b = if x1 - x >= x - x2 { x1 - x } else { x - x2 };
    if a >= b { a } else { b }
}

impl Droplet {
    pub fn new(id: DropletId, volume: i32, location: Location, dimensions: Location) -> (r: Droplet)
        ensures
            r == (Droplet { id, location, dimensions, volume, destination: None }),
    {
        Droplet { id, location, dimensions, volume, destination: None }
    }

    /// Distance from `(y, x)` to the box spanned by the droplet's location and
    /// its location plus its dimensions.
    pub open spec fn spec_box_distance(self, y: int, x: int) -> int {
        box_distance(
            y,
            x,
            self.location.y as int,
            self.location.x as int,
            self.location.y + self.dimensions.y,
            self.location.x + self.dimensions.x,
        )
    }

    /// Whether the point `(y, x)` lies inside or touching the droplet's box.
    pub open spec fn blocks(self, y: int, x: int) -> bool {
        self.spec_box_distance(y, x) <= 0
    }

    pub fn box_distance(&self, y: i64, x: i64) -> (r: i64)
        requires
            -0x1_0000_0000 <= y <= 0x1_0000_0000,
            -0x1_0000_0000 <= x <= 0x1_0000_0000,
        ensures
            r as int == self.spec_box_distance(y as int, x as int),
    {
        let y1: i64 = self.location.y as i64;
        let x1: i64 = self.location.x as i64;
        let y2: i64 = y1 + self.dimensions.y as i64;
        let x2: i64 = x1 + self.dimensions.x as i64;
        let a: i64 = if y1 - y >= y - y2 { y1 - y } else { y - y2 };
        let b: i64 = if x1 - x >= x - x2 { x1 - x } else { x - x2 };
        if a >= b { a } else { b }
    }
}

/// All droplets on the board at one instant.
#[derive(Clone, Debug)]
pub struct Snapshot {
    pub droplets: Vec<Droplet>,
}

impl Snapshot {
    /// Droplets are keyed by their ids: no id occurs twice.
    pub open spec fn wf(self) -> bool {
        ids_unique(self.droplets@)
    }

    /// Whether some droplet's box holds or touches `(y, x)`.
    pub open spec fn blocks(self, y: int, x: int) -> bool {
        exists|k: int| 0 <= k < self.droplets@.len() && #[trigger] self.droplets@[k].blocks(y, x)
    }

    /// Whether a droplet's box holds or touches `(y, x)`.
    pub fn is_blocked(&self, y: i64, x: i64) -> (r: bool)
        requires
            -0x1_0000_0000 <= y <= 0x1_0000_0000,
            -0x1_0000_0000 <= x <= 0x1_0000_0000,
        ensures
            r == self.blocks(y as int, x as int),
    {
        let mut k: usize = 0;
        while k < self.droplets.len()
            invariant
                k <= self.droplets@.len(),
                -0x1_0000_0000 <= y <= 0x1_0000_0000,
                -0x1_0000_0000 <= x <= 0x1_0000_0000,
                forall|j: int| 0 <= j < k ==> !#[trigger] self.droplets@[j].blocks(y as int, x as int),
            decreases self.droplets@.len() - k,
        {
            if self.droplets[k].box_distance(y, x) <= 0 {
                assert(self.droplets@[k as int].blocks(y as int, x as int));
                return true;
            }
            k += 1;
        }
        false
    }
}

impl Default for Snapshot {
    fn default() -> (r: Snapshot)
        ensures
            r.droplets@.len() == 0,
    {
        Snapshot { droplets: Vec::new() }
    }
}

} // verus!
