use vstd::prelude::*;

use crate::droplet::Snapshot;
use crate::location::Location;

verus! {

/// One addressable electrode, known by the pin that drives it.
#[derive(Clone, Copy, Debug, PartialEq, Eq, Hash, Structural)]
pub struct Cell {
    pub pin: u32,
}

impl Cell {
    /// Every cell may currently stand in for every other.
    pub open spec fn compatible(self, other: Cell) -> bool {
        true
    }

    pub fn is_compatible(&self, other: &Self) -> (r: bool)
        ensures
            r == self.compatible(*other),
    {
        true
    }
}

/// A possibly irregular board: row `y` of `vec` holds the cells of that row,
/// and `None` marks a position without an electrode.
#[derive(Clone, Debug)]
pub struct Grid {
    pub vec: Vec<Vec<Option<Cell>>>,
}

/// The location with row `y` and column `x`.
pub open spec fn loc_of(y: int, x: int) -> Location {
    Location { y: y as i32, x: x as i32 }
}

/// Row-major order on locations.
pub open spec fn before(a: Location, b: Location) -> bool {
    a.y < b.y || (a.y == b.y && a.x < b.x)
}

impl Grid {
    /// Every row index and column index fits in an `i32` coordinate.
    pub open spec fn wf(self) -> bool {
        &&& self.vec@.len() <= i32::MAX
        &&& forall|i: int| 0 <= i < self.vec@.len() ==> #[trigger] self.vec@[i]@.len() <= i32::MAX
    }

    /// Whether `(y, x)` is a position of the backing rows, with or without a cell.
    pub open spec fn in_rows(self, y: int, x: int) -> bool {
        0 <= y < self.vec@.len() && 0 <= x < self.vec@[y]@.len()
    }

    /// The cell at `(y, x)`; `None` outside the rows or where no electrode is.
    pub open spec fn cell_at(self, y: int, x: int) -> Option<Cell> {
        if self.in_rows(y, x) {
            self.vec@[y]@[x]
        } else {
            None
        }
    }

    pub open spec fn has_cell(self, y: int, x: int) -> bool {
        self.cell_at(y, x).is_some()
    }

    pub open spec fn has_loc(self, l: Location) -> bool {
        self.has_cell(l.y as int, l.x as int)
    }

    /// The cell at `(y, x)`, for coordinates of any size.
    pub fn cell_at_exec(&self, y: i64, x: i64) -> (r: Option<Cell>)
        ensures
            r == self.cell_at(y as int, x as int),
    {
        if y < 0 || x < 0 {
            return None;
        }
        if y as u64 >= self.vec.len() as u64 {
            return None;
        }
        let row = &self.vec[y as usize];
        if x as u64 >= row.len() as u64 {
            return None;
        }
        row[x as usize]
    }

    pub fn get_cell(&self, loc: &Location) -> (r: Option<&Cell>)
        ensures
            match r {
                Some(c) => self.cell_at(loc.y as int, loc.x as int) == Some(*c),
                None => self.cell_at(loc.y as int, loc.x as int).is_none(),
            },
    {
        if loc.x < 0 || loc.y < 0 {
            return None;
        }
        let i = loc.y as usize;
        let j = loc.x as usize;
        if i >= self.vec.len() {
            return None;
        }
        let row = &self.vec[i];
        if j >= row.len() {
            return None;
        }
        self.vec[i][j].as_ref()
    }

    pub fn max_height(&self) -> (r: usize)
        ensures
            r == self.vec@.len(),
    {
        self.vec.len()
    }

    /// The length of the longest row, or zero without rows.
    pub fn max_width(&self) -> (r: usize)
        ensures
            forall|i: int| 0 <= i < self.vec@.len() ==> #[trigger] self.vec@[i]@.len() <= r,
            self.vec@.len() == 0 ==> r == 0,
            self.vec@.len() > 0 ==> exists|i: int| 0 <= i < self.vec@.len() && #[trigger] self.vec@[i]@.len() == r,
    {
        let mut best: usize = 0;
        let mut i: usize = 0;
        while i < self.vec.len()
            invariant
                i <= self.vec@.len(),
                forall|k: int| 0 <= k < i ==> #[trigger] self.vec@[k]@.len() <= best,
                i == 0 ==> best == 0,
                i > 0 ==> exists|k: int| 0 <= k < i && #[trigger] self.vec@[k]@.len() == best,
            decreases self.vec@.len() - i,
        {
            if i == 0 || self.vec[i].len() > best {
                best = self.vec[i].len();
            }
            i += 1;
        }
        best
    }

    /// A full `h` by `w` board whose pins are numbered row by row from zero.
    pub fn rectangle(h: usize, w: usize) -> (r: Self)
        requires
            h <= i32::MAX,
            w <= i32::MAX,
            h * w <= u32::MAX + 1,
        ensures
            r.wf(),
            r.vec@.len() == h,
            forall|i: int| 0 <= i < h ==> #[trigger] r.vec@[i]@.len() == w,
            forall|i: int, j: int|
                0 <= i < h && 0 <= j < w ==> #[trigger] r.cell_at(i, j) == Some(Cell { pin: (i * w + j) as u32 }),
    {
        let mut vec: Vec<Vec<Option<Cell>>> = Vec::new();
        let mut i: usize = 0;
        while i < h
            invariant
                i <= h,
                h <= i32::MAX,
                w <= i32::MAX,
                h * w <= u32::MAX + 1,
                vec@.len() == i,
                forall|a: int| 0 <= a < i ==> #[trigger] vec@[a]@.len() == w,
                forall|a: int, b: int|
                    0 <= a < i && 0 <= b < w ==> #[trigger] vec@[a]@[b] == Some(Cell { pin: (a * w + b) as u32 }),
            decreases h - i,
        {
            let mut row: Vec<Option<Cell>> = Vec::new();
            let mut j: usize = 0;
            while j < w
                invariant
                    i < h,
                    j <= w,
                    h * w <= u32::MAX + 1,
                    row@.len() == j,
                    forall|b: int| 0 <= b < j ==> #[trigger] row@[b] == Some(Cell { pin: (i * w + b) as u32 }),
                decreases w - j,
            {
                proof {
                    assert(i * w + j < h * w) by (nonlinear_arith)
                        requires i < h, j < w;
                }
                let pin: u32 = (i * w + j) as u32;
                row.push(Some(Cell { pin }));
                j += 1;
            }
            vec.push(row);
            i += 1;
        }
        Grid { vec }
    }

    /// A `height` by `width` board whose cell at each location is what `f` gives.
    pub fn from_function<F: Fn(Location) -> Option<Cell>>(f: F, height: usize, width: usize) -> (r: Grid)
        requires
            height <= i32::MAX,
            width <= i32::MAX,
            forall|i: int, j: int|
                0 <= i < height && 0 <= j < width ==> #[trigger] f.requires((Location { y: i as i32, x: j as i32 },)),
        ensures
            r.wf(),
            r.vec@.len() == height,
            forall|i: int| 0 <= i < height ==> #[trigger] r.vec@[i]@.len() == width,
            forall|i: int, j: int|
                0 <= i < height && 0 <= j < width ==> #[trigger] f.ensures(
                    (Location { y: i as i32, x: j as i32 },),
                    r.vec@[i]@[j],
                ),
    {
        let mut vec: Vec<Vec<Option<Cell>>> = Vec::new();
        let mut i: usize = 0;
        while i < height
            invariant
                i <= height,
                height <= i32::MAX,
                width <= i32::MAX,
                forall|a: int, b: int|
                    0 <= a < height && 0 <= b < width ==> #[trigger] f.requires((Location { y: a as i32, x: b as i32 },)),
                vec@.len() == i,
                forall|a: int| 0 <= a < i ==> #[trigger] vec@[a]@.len() == width,
                forall|a: int, b: int|
                    0 <= a < i && 0 <= b < width ==> #[trigger] f.ensures(
                        (Location { y: a as i32, x: b as i32 },),
                        vec@[a]@[b],
                    ),
            decreases height - i,
        {
            let mut row: Vec<Option<Cell>> = Vec::new();
            let mut j: usize = 0;
            while j < width
                invariant
                    i < height,
                    j <= width,
                    height <= i32::MAX,
                    width <= i32::MAX,
                    forall|a: int, b: int|
                        0 <= a < height && 0 <= b < width ==> #[trigger] f.requires((Location { y: a as i32, x: b as i32 },)),
                    row@.len() == j,
                    forall|b: int| 0 <= b < j ==> #[trigger] f.ensures(
                        (Location { y: i as i32, x: b as i32 },),
                        row@[b],
                    ),
                decreases width - j,
            {
                let c = f(Location { y: i as i32, x: j as i32 });
                row.push(c);
                j += 1;
            }
            vec.push(row);
            i += 1;
        }
        Grid { vec }
    }

    /// Every cell with its location, in row-major order.
    pub fn locations(&self) -> (r: Vec<(Location, Cell)>)
        requires
            self.wf(),
        ensures
            forall|k: int| 0 <= k < r@.len() ==> self.cell_at(r@[k].0.y as int, r@[k].0.x as int) == Some(#[trigger] r@[k].1),
            forall|y: int, x: int| #[trigger] self.has_cell(y, x) ==> exists|k: int|
                0 <= k < r@.len() && r@[k].0 == loc_of(y, x),
            forall|a: int, b: int| 0 <= a < b < r@.len() ==> before(#[trigger] r@[a].0, #[trigger] r@[b].0),
    {
        let mut r: Vec<(Location, Cell)> = Vec::new();
        let mut i: usize = 0;
        while i < self.vec.len()
            invariant
                self.wf(),
                i <= self.vec@.len(),
                forall|k: int| 0 <= k < r@.len() ==> self.cell_at(r@[k].0.y as int, r@[k].0.x as int) == Some(#[trigger] r@[k].1),
                forall|k: int| 0 <= k < r@.len() ==> (#[trigger] r@[k]).0.y < i,
                forall|y: int, x: int| #[trigger] self.has_cell(y, x) && y < i ==> exists|k: int|
                    0 <= k < r@.len() && r@[k].0 == loc_of(y, x),
                forall|a: int, b: int| 0 <= a < b < r@.len() ==> before(#[trigger] r@[a].0, #[trigger] r@[b].0),
            decreases self.vec@.len() - i,
        {
            let row = &self.vec[i];
            let mut j: usize = 0;
            while j < row.len()
                invariant
                    self.wf(),
                    i < self.vec@.len(),
                    row@ == self.vec@[i as int]@,
                    j <= row@.len(),
                    forall|k: int| 0 <= k < r@.len() ==> self.cell_at(r@[k].0.y as int, r@[k].0.x as int) == Some(#[trigger] r@[k].1),
                    forall|k: int| 0 <= k < r@.len() ==> before((#[trigger] r@[k]).0, Location { y: i as i32, x: j as i32 }),
                    forall|y: int, x: int| #[trigger] self.has_cell(y, x) && (y < i || (y == i && x < j)) ==> exists|k: int|
                        0 <= k < r@.len() && r@[k].0 == loc_of(y, x),
                    forall|a: int, b: int| 0 <= a < b < r@.len() ==> before(#[trigger] r@[a].0, #[trigger] r@[b].0),
                decreases row@.len() - j,
            {
                assert(self.vec@[i as int]@.len() <= i32::MAX);
                let here = Location { y: i as i32, x: j as i32 };
                if let Some(cell) = row[j] {
                    let ghost old_r = r@;
                    r.push((here, cell));
                    proof {
                        assert forall|y: int, x: int| #[trigger] self.has_cell(y, x) && (y < i || (y == i && x < j + 1)) implies exists|k: int|
                            0 <= k < r@.len() && r@[k].0 == loc_of(y, x) by {
                            if y == i && x == j {
                                assert(r@[old_r.len() as int].0 == here);
                            } else {
                                let k = choose|k: int| 0 <= k < old_r.len() && old_r[k].0 == loc_of(y, x);
                                assert(r@[k] == old_r[k]);
                            }
                        }
                    }
                } else {
                    assert forall|y: int, x: int| #[trigger] self.has_cell(y, x) && (y < i || (y == i && x < j + 1)) implies exists|k: int|
                        0 <= k < r@.len() && r@[k].0 == loc_of(y, x) by {
                        assert(!(y == i && x == j));
                    }
                }
                j += 1;
            }
            proof {
                assert forall|y: int, x: int| #[trigger] self.has_cell(y, x) && y < i + 1 implies exists|k: int|
                    0 <= k < r@.len() && r@[k].0 == loc_of(y, x) by {
                    if y == i {
                        assert(x < row@.len());
                    }
                }
            }
            i += 1;
        }
        r
    }

    /// Every cell of `self`, shifted by `(oy, ox)`, lands on a compatible cell
    /// of `bigger` that no droplet of `snapshot` holds or touches.
    pub open spec fn fits_at(self, oy: int, ox: int, bigger: Grid, snapshot: Snapshot) -> bool {
        forall|y: int, x: int| #[trigger] self.has_cell(y, x) ==> {
            &&& bigger.has_cell(y + oy, x + ox)
            &&& self.cell_at(y, x).unwrap().compatible(bigger.cell_at(y + oy, x + ox).unwrap())
            &&& !snapshot.blocks(y + oy, x + ox)
        }
    }

    /// `m` sends each cell location of `self`, in row-major order, to that
    /// location shifted by `(oy, ox)`.
    pub open spec fn is_mapping(self, m: Seq<(Location, Location)>, oy: int, ox: int) -> bool {
        &&& forall|k: int| 0 <= k < m.len() ==> self.has_loc(#[trigger] m[k].0)
        &&& forall|y: int, x: int| #[trigger] self.has_cell(y, x) ==> exists|k: int|
            0 <= k < m.len() && m[k].0 == loc_of(y, x)
        &&& forall|a: int, b: int| 0 <= a < b < m.len() ==> before(#[trigger] m[a].0, #[trigger] m[b].0)
        &&& forall|k: int| 0 <= k < m.len() ==> (#[trigger] m[k]).1 == loc_of(m[k].0.y + oy, m[k].0.x + ox)
    }

    /// `(oy, ox)` is the first position of `self`'s rows, in row-major order,
    /// at which `smaller` fits.
    pub open spec fn first_fit(self, smaller: Grid, snapshot: Snapshot, oy: int, ox: int) -> bool {
        &&& self.in_rows(oy, ox)
        &&& smaller.fits_at(oy, ox, self, snapshot)
        &&& forall|y: int, x: int|
            self.in_rows(y, x) && (y < oy || (y == oy && x < ox)) ==> !#[trigger] smaller.fits_at(y, x, self, snapshot)
    }

    /// `m` is the mapping of `smaller` at its first fit in `self`.
    pub open spec fn placed(self, smaller: Grid, snapshot: Snapshot, m: Seq<(Location, Location)>) -> bool {
        exists|oy: int, ox: int| #[trigger] self.first_fit(smaller, snapshot, oy, ox) && smaller.is_mapping(m, oy, ox)
    }

    /// Whether `self`, shifted by `offset`, fits into `bigger` around the
    /// droplets of `snapshot`.
    pub fn is_compatible_within(&self, offset: Location, bigger: &Self, snapshot: &Snapshot) -> (r: bool)
        requires
            self.wf(),
        ensures
            r == self.fits_at(offset.y as int, offset.x as int, *bigger, *snapshot),
    {
        let oy: i64 = offset.y as i64;
        let ox: i64 = offset.x as i64;
        let mut i: usize = 0;
        while i < self.vec.len()
            invariant
                self.wf(),
                i <= self.vec@.len(),
                oy == offset.y,
                ox == offset.x,
                forall|y: int, x: int| #[trigger] self.has_cell(y, x) && y < i ==> {
                    &&& bigger.has_cell(y + oy, x + ox)
                    &&& self.cell_at(y, x).unwrap().compatible(bigger.cell_at(y + oy, x + ox).unwrap())
                    &&& !snapshot.blocks(y + oy, x + ox)
                },
            decreases self.vec@.len() - i,
        {
            let row = &self.vec[i];
            let mut j: usize = 0;
            while j < row.len()
                invariant
                    self.wf(),
                    i < self.vec@.len(),
                    row@ == self.vec@[i as int]@,
                    j <= row@.len(),
                    oy == offset.y,
                    ox == offset.x,
                    forall|y: int, x: int| #[trigger] self.has_cell(y, x) && (y < i || (y == i && x < j)) ==> {
                        &&& bigger.has_cell(y + oy, x + ox)
                        &&& self.cell_at(y, x).unwrap().compatible(bigger.cell_at(y + oy, x + ox).unwrap())
                        &&& !snapshot.blocks(y + oy, x + ox)
                    },
                decreases row@.len() - j,
            {
                assert(self.vec@[i as int]@.len() <= i32::MAX);
                if let Some(mine) = row[j] {
                    assert(self.has_cell(i as int, j as int));
                    let ty: i64 = i as i64 + oy;
                    let tx: i64 = j as i64 + ox;
                    match bigger.cell_at_exec(ty, tx) {
                        None => {
                            return false;
                        },
                        Some(theirs) => {
                            if !mine.is_compatible(&theirs) {
                                return false;
                            }
                            if snapshot.is_blocked(ty, tx) {
                                return false;
                            }
                        },
                    }
                }
                j += 1;
            }
            i += 1;
        }
        true
    }

    /// The location pairs that send each cell of `self` to its place in
    /// `bigger` under `offset`.
    fn mapping_into_other_from_offset(&self, offset: Location, bigger: &Self) -> (r: Vec<(Location, Location)>)
        requires
            self.wf(),
            bigger.wf(),
            forall|y: int, x: int| #[trigger] self.has_cell(y, x) ==> bigger.has_cell(y + offset.y, x + offset.x),
        ensures
            self.is_mapping(r@, offset.y as int, offset.x as int),
    {
        let locs = self.locations();
        let mut r: Vec<(Location, Location)> = Vec::new();
        let mut k: usize = 0;
        while k < locs.len()
            invariant
                self.wf(),
                bigger.wf(),
                forall|y: int, x: int| #[trigger] self.has_cell(y, x) ==> bigger.has_cell(y + offset.y, x + offset.x),
                forall|q: int| 0 <= q < locs@.len() ==> self.cell_at(locs@[q].0.y as int, locs@[q].0.x as int) == Some(#[trigger] locs@[q].1),
                k <= locs@.len(),
                r@.len() == k,
                forall|q: int| 0 <= q < k ==> (#[trigger] r@[q]).0 == locs@[q].0,
                forall|q: int| 0 <= q < k ==> (#[trigger] r@[q]).1 == loc_of(r@[q].0.y + offset.y, r@[q].0.x + offset.x),
            decreases locs@.len() - k,
        {
            let loc = locs[k].0;
            assert(self.cell_at(locs@[k as int].0.y as int, locs@[k as int].0.x as int) == Some(locs@[k as int].1));
            assert(self.has_cell(loc.y as int, loc.x as int));
            assert(bigger.has_cell(loc.y + offset.y, loc.x + offset.x));
            assert(bigger.vec@[loc.y + offset.y]@.len() <= i32::MAX);
            let target = Location { y: loc.y + offset.y, x: loc.x + offset.x };
            r.push((loc, target));
            k += 1;
        }
        proof {
            assert forall|q: int| 0 <= q < r@.len() implies self.has_loc(#[trigger] r@[q].0) by {
                assert(self.cell_at(locs@[q].0.y as int, locs@[q].0.x as int) == Some(locs@[q].1));
            }
            assert forall|a: int, b: int| 0 <= a < b < r@.len() implies before(#[trigger] r@[a].0, #[trigger] r@[b].0) by {
                assert(before(locs@[a].0, locs@[b].0));
            }
            assert forall|y: int, x: int| #[trigger] self.has_cell(y, x) implies exists|q: int|
                0 <= q < r@.len() && r@[q].0 == loc_of(y, x) by {
                let q = choose|q: int| 0 <= q < locs@.len() && locs@[q].0 == loc_of(y, x);
                assert(r@[q].0 == loc_of(y, x));
            }
        }
        r
    }

    /// The first placement of `smaller` on `self`, scanning offsets in
    /// row-major order, that avoids every droplet of `snapshot`; `None` when
    /// no offset fits.
    pub fn place(&self, smaller: &Self, snapshot: &Snapshot) -> (r: Option<Vec<(Location, Location)>>)
        requires
            self.wf(),
            smaller.wf(),
        ensures
            match r {
                Some(m) => self.placed(*smaller, *snapshot, m@),
                None => forall|y: int, x: int|
                    self.in_rows(y, x) ==> !#[trigger] smaller.fits_at(y, x, *self, *snapshot),
            },
            r matches Some(m) ==> forall|k: int| 0 <= k < m@.len() ==> {
                &&& self.has_loc(#[trigger] m@[k].1)
                &&& forall|d: int| 0 <= d < snapshot.droplets@.len() ==>
                    #[trigger] snapshot.droplets@[d].spec_box_distance(m@[k].1.y as int, m@[k].1.x as int) > 0
            },
    {
        let mut i: usize = 0;
        while i < self.vec.len()
            invariant
                self.wf(),
                smaller.wf(),
                i <= self.vec@.len(),
                forall|y: int, x: int|
                    self.in_rows(y, x) && y < i ==> !#[trigger] smaller.fits_at(y, x, *self, *snapshot),
            decreases self.vec@.len() - i,
        {
            let mut j: usize = 0;
            while j < self.vec[i].len()
                invariant
                    self.wf(),
                    smaller.wf(),
                    i < self.vec@.len(),
                    j <= self.vec@[i as int]@.len(),
                    forall|y: int, x: int|
                        self.in_rows(y, x) && (y < i || (y == i && x < j)) ==> !#[trigger] smaller.fits_at(y, x, *self, *snapshot),
                decreases self.vec@[i as int]@.len() - j,
            {
                assert(self.vec@[i as int]@.len() <= i32::MAX);
                let offset = Location { y: i as i32, x: j as i32 };
                if smaller.is_compatible_within(offset, self, snapshot) {
                    let m = smaller.mapping_into_other_from_offset(offset, self);
                    proof {
                        assert(self.first_fit(*smaller, *snapshot, i as int, j as int));
                        assert forall|k: int| 0 <= k < m@.len() implies {
                            &&& self.has_loc(#[trigger] m@[k].1)
                            &&& forall|d: int| 0 <= d < snapshot.droplets@.len() ==>
                                #[trigger] snapshot.droplets@[d].spec_box_distance(m@[k].1.y as int, m@[k].1.x as int) > 0
                        } by {
                            let src = m@[k].0;
                            assert(smaller.has_cell(src.y as int, src.x as int));
                            assert(self.has_cell(src.y + i, src.x + j));
                            assert(!snapshot.blocks(src.y + i, src.x + j));
                            assert forall|d: int| 0 <= d < snapshot.droplets@.len() implies
                                #[trigger] snapshot.droplets@[d].spec_box_distance(m@[k].1.y as int, m@[k].1.x as int) > 0 by {
                                assert(!snapshot.droplets@[d].blocks(src.y + i, src.x + j));
                            }
                        }
                    }
                    return Some(m);
                }
                j += 1;
            }
            i += 1;
        }
        None
    }

    /// The locations `loc + o`, for the offsets `o` of `offs` in order, that
    /// hold a cell.
    pub open spec fn present_shifts(self, loc: Location, offs: Seq<Location>) -> Seq<Location>
        decreases offs.len(),
    {
        if offs.len() == 0 {
            Seq::empty()
        } else {
            let prev = self.present_shifts(loc, offs.drop_last());
            let o = offs.last();
            if self.has_cell(loc.y + o.y, loc.x + o.x) {
                prev.push(loc_of(loc.y + o.y, loc.x + o.x))
            } else {
                prev
            }
        }
    }

    /// The 8-connected neighbors of `loc` that hold a cell, then `loc` itself.
    pub open spec fn nine(self, loc: Location) -> Seq<Location> {
        if self.has_loc(loc) {
            self.present_shifts(loc, eight_offsets()).push(loc)
        } else {
            self.present_shifts(loc, eight_offsets())
        }
    }

    /// `l` is in the 9-neighborhood of `loc` shifted by `(dy, dx)`.
    pub open spec fn in_nine(self, loc: Location, dy: int, dx: int, l: Location) -> bool {
        self.nine(loc_of(loc.y + dy, loc.x + dx)).contains(l)
    }

    /// Each location that `present_shifts` gives holds a cell and is `loc`
    /// shifted by one of the offsets.
    pub proof fn lemma_present_shifts(self, loc: Location, offs: Seq<Location>)
        requires
            self.wf(),
        ensures
            forall|k: int| 0 <= k < self.present_shifts(loc, offs).len() ==> {
                let l = #[trigger] self.present_shifts(loc, offs)[k];
                &&& self.has_loc(l)
                &&& exists|j: int| 0 <= j < offs.len() && l.y == loc.y + offs[j].y && l.x == loc.x + offs[j].x
            },
        decreases offs.len(),
    {
        if offs.len() > 0 {
            let prev = offs.drop_last();
            self.lemma_present_shifts(loc, prev);
            let ps = self.present_shifts(loc, offs);
            assert forall|k: int| 0 <= k < ps.len() implies {
                let l = #[trigger] ps[k];
                &&& self.has_loc(l)
                &&& exists|j: int| 0 <= j < offs.len() && l.y == loc.y + offs[j].y && l.x == loc.x + offs[j].x
            } by {
                let pp = self.present_shifts(loc, prev);
                if k < pp.len() {
                    assert(ps[k] == pp[k]);
                    let j = choose|j: int| 0 <= j < prev.len() && pp[k].y == loc.y + prev[j].y && pp[k].x == loc.x + prev[j].x;
                    assert(offs[j] == prev[j]);
                } else {
                    let o = offs.last();
                    let y = loc.y + o.y;
                    assert(self.vec@[y]@.len() <= i32::MAX);
                    assert(ps[k].y == loc.y + offs[offs.len() - 1].y);
                }
            }
        }
    }

    fn locations_from_offsets(&self, loc: &Location, offsets: &Vec<Location>) -> (r: Vec<Location>)
        requires
            self.wf(),
        ensures
            r@ == self.present_shifts(*loc, offsets@),
    {
        let mut r: Vec<Location> = Vec::new();
        let mut k: usize = 0;
        while k < offsets.len()
            invariant
                self.wf(),
                k <= offsets@.len(),
                r@ == self.present_shifts(*loc, offsets@.take(k as int)),
            decreases offsets@.len() - k,
        {
            assert(offsets@.take(k + 1).drop_last() == offsets@.take(k as int));
            let off = offsets[k];
            let ty: i64 = loc.y as i64 + off.y as i64;
            let tx: i64 = loc.x as i64 + off.x as i64;
            if self.cell_at_exec(ty, tx).is_some() {
                assert(self.vec@[ty as int]@.len() <= i32::MAX);
                r.push(Location { y: ty as i32, x: tx as i32 });
            }
            k += 1;
        }
        assert(offsets@.take(offsets@.len() as int) == offsets@);
        r
    }

    /// Each offset that leads to a cell gives a location of `present_shifts`.
    pub proof fn lemma_present_shifts_complete(self, loc: Location, offs: Seq<Location>, j: int)
        requires
            0 <= j < offs.len(),
            self.has_cell(loc.y + offs[j].y, loc.x + offs[j].x),
        ensures
            self.present_shifts(loc, offs).contains(loc_of(loc.y + offs[j].y, loc.x + offs[j].x)),
        decreases offs.len(),
    {
        let prev = offs.drop_last();
        if j < offs.len() - 1 {
            assert(prev[j] == offs[j]);
            self.lemma_present_shifts_complete(loc, prev, j);
            let ps = self.present_shifts(loc, prev);
            let k = choose|k: int| 0 <= k < ps.len() && ps[k] == loc_of(loc.y + offs[j].y, loc.x + offs[j].x);
            let o = offs.last();
            if self.has_cell(loc.y + o.y, loc.x + o.x) {
                assert(self.present_shifts(loc, offs)[k] == ps[k]);
            }
        } else {
            let ps = self.present_shifts(loc, offs);
            assert(ps[ps.len() - 1] == loc_of(loc.y + offs[j].y, loc.x + offs[j].x));
        }
    }

    /// The 4-connected neighbors of `loc` that hold a cell.
    pub fn neighbors4(&self, loc: &Location) -> (r: Vec<Location>)
        requires
            self.wf(),
        ensures
            r@ == self.present_shifts(*loc, four_offsets()),
            forall|k: int| 0 <= k < r@.len() ==> self.has_loc(#[trigger] r@[k]) && r@[k].dist(*loc) == 1,
            forall|l: Location| self.has_loc(l) && l.dist(*loc) == 1 ==> r@.contains(l),
    {
        let offs = four_offsets_vec();
        let r = self.locations_from_offsets(loc, &offs);
        proof {
            assert forall|l: Location| self.has_loc(l) && l.dist(*loc) == 1 implies r@.contains(l) by {
                let f = four_offsets();
                let j: int = if l.y == loc.y && l.x == loc.x - 1 {
                    0
                } else if l.y == loc.y - 1 {
                    1
                } else if l.y == loc.y + 1 {
                    2
                } else {
                    3
                };
                assert(l.y == loc.y + f[j].y && l.x == loc.x + f[j].x);
                self.lemma_present_shifts_complete(*loc, f, j);
                assert(loc_of(loc.y + f[j].y, loc.x + f[j].x) == l);
            }
            self.lemma_present_shifts(*loc, four_offsets());
            assert forall|k: int| 0 <= k < r@.len() implies self.has_loc(#[trigger] r@[k]) && r@[k].dist(*loc) == 1 by {
                let l = self.present_shifts(*loc, four_offsets())[k];
                assert(l == r@[k]);
            }
        }
        r
    }

    /// The 8-connected neighbors of `loc` that hold a cell.
    pub fn neighbors8(&self, loc: &Location) -> (r: Vec<Location>)
        requires
            self.wf(),
        ensures
            r@ == self.present_shifts(*loc, eight_offsets()),
    {
        let offs = eight_offsets_vec();
        self.locations_from_offsets(loc, &offs)
    }

    /// The 8-connected neighbors of `loc` that hold a cell, then `loc` if it
    /// holds one.
    pub fn neighbors9(&self, loc: &Location) -> (r: Vec<Location>)
        requires
            self.wf(),
        ensures
            r@ == self.nine(*loc),
    {
        let mut v = self.neighbors8(loc);
        if self.get_cell(loc).is_some() {
            v.push(*loc);
        }
        v
    }

    /// The union, without repeats, of the 9-neighborhoods of every location of
    /// the rectangle of size `dimensions` whose top-left corner is `loc`.
    pub fn neighbors_dimensions(&self, loc: &Location, dimensions: &Location) -> (r: Vec<Location>)
        requires
            self.wf(),
            loc.y + dimensions.y <= i32::MAX + 1,
            loc.x + dimensions.x <= i32::MAX + 1,
        ensures
            r@.no_duplicates(),
            forall|l: Location| r@.contains(l) <==> exists|dy: int, dx: int|
                0 <= dy < dimensions.y && 0 <= dx < dimensions.x && #[trigger] self.in_nine(*loc, dy, dx, l),
            forall|k: int| 0 <= k < r@.len() ==> self.has_loc(#[trigger] r@[k]),
    {
        let mut r: Vec<Location> = Vec::new();
        let mut y: i32 = 0;
        while y < dimensions.y
            invariant
                self.wf(),
                loc.y + dimensions.y <= i32::MAX + 1,
                loc.x + dimensions.x <= i32::MAX + 1,
                0 <= y,
                y == 0 || y <= dimensions.y,
                r@.no_duplicates(),
                forall|l: Location| r@.contains(l) <==> exists|dy: int, dx: int|
                    0 <= dy < y && 0 <= dx < dimensions.x && #[trigger] self.in_nine(*loc, dy, dx, l),
            decreases dimensions.y - y,
        {
            let mut x: i32 = 0;
            while x < dimensions.x
                invariant
                    self.wf(),
                    loc.y + dimensions.y <= i32::MAX + 1,
                    loc.x + dimensions.x <= i32::MAX + 1,
                    0 <= y < dimensions.y,
                    0 <= x,
                    x == 0 || x <= dimensions.x,
                    r@.no_duplicates(),
                    forall|l: Location| r@.contains(l) <==> exists|dy: int, dx: int|
                        0 <= dx < dimensions.x && (0 <= dy < y || (dy == y && 0 <= dx < x)) && #[trigger] self.in_nine(*loc, dy, dx, l),
                decreases dimensions.x - x,
            {
                let here = Location { y: loc.y + y, x: loc.x + x };
                let nbrs = self.neighbors9(&here);
                let ghost before_r = r@;
                add_unique(&mut r, &nbrs);
                proof {
                    assert(here == loc_of(loc.y + y, loc.x + x));
                    assert forall|l: Location| r@.contains(l) <==> exists|dy: int, dx: int|
                        0 <= dx < dimensions.x && (0 <= dy < y || (dy == y && 0 <= dx < x + 1)) && #[trigger] self.in_nine(*loc, dy, dx, l) by {
                        if r@.contains(l) && !before_r.contains(l) {
                            assert(nbrs@.contains(l));
                            assert(self.in_nine(*loc, y as int, x as int, l));
                        }
                        if before_r.contains(l) {
                            let (dy, dx) = choose|dy: int, dx: int|
                                0 <= dx < dimensions.x && (0 <= dy < y || (dy == y && 0 <= dx < x)) && #[trigger] self.in_nine(*loc, dy, dx, l);
                            assert(self.in_nine(*loc, dy, dx, l));
                        }
                        if exists|dy: int, dx: int|
                            0 <= dx < dimensions.x && (0 <= dy < y || (dy == y && 0 <= dx < x + 1)) && #[trigger] self.in_nine(*loc, dy, dx, l) {
                            let (dy, dx) = choose|dy: int, dx: int|
                                0 <= dx < dimensions.x && (0 <= dy < y || (dy == y && 0 <= dx < x + 1)) && #[trigger] self.in_nine(*loc, dy, dx, l);
                            if dy == y && dx == x {
                                assert(nbrs@.contains(l));
                            } else {
                                assert(before_r.contains(l));
                            }
                        }
                    }
                }
                x += 1;
            }
            proof {
                assert forall|l: Location| r@.contains(l) <==> exists|dy: int, dx: int|
                    0 <= dy < y + 1 && 0 <= dx < dimensions.x && #[trigger] self.in_nine(*loc, dy, dx, l) by {
                    if exists|dy: int, dx: int| 0 <= dy < y + 1 && 0 <= dx < dimensions.x && #[trigger] self.in_nine(*loc, dy, dx, l) {
                        let (dy, dx) = choose|dy: int, dx: int| 0 <= dy < y + 1 && 0 <= dx < dimensions.x && #[trigger] self.in_nine(*loc, dy, dx, l);
                        assert(0 <= dx < dimensions.x && (0 <= dy < y || (dy == y && 0 <= dx < x)));
                    }
                }
            }
            y += 1;
        }
        assert forall|l: Location| r@.contains(l) <==> exists|dy: int, dx: int|
            0 <= dy < dimensions.y && 0 <= dx < dimensions.x && #[trigger] self.in_nine(*loc, dy, dx, l) by {
            if exists|dy: int, dx: int| 0 <= dy < dimensions.y && 0 <= dx < dimensions.x && #[trigger] self.in_nine(*loc, dy, dx, l) {
                let (dy, dx) = choose|dy: int, dx: int| 0 <= dy < dimensions.y && 0 <= dx < dimensions.x && #[trigger] self.in_nine(*loc, dy, dx, l);
                assert(0 <= dy < y);
            }
            if r@.contains(l) {
                let (dy, dx) = choose|dy: int, dx: int| 0 <= dy < y && 0 <= dx < dimensions.x && #[trigger] self.in_nine(*loc, dy, dx, l);
                assert(self.in_nine(*loc, dy, dx, l));
            }
        }
        assert forall|k: int| 0 <= k < r@.len() implies self.has_loc(#[trigger] r@[k]) by {
            let l = r@[k];
            assert(r@.contains(l));
            let (dy, dx) = choose|dy: int, dx: int|
                0 <= dy < dimensions.y && 0 <= dx < dimensions.x && #[trigger] self.in_nine(*loc, dy, dx, l);
            let c = loc_of(loc.y + dy, loc.x + dx);
            self.lemma_present_shifts(c, eight_offsets());
            let ps = self.present_shifts(c, eight_offsets());
            if ps.contains(l) {
                let q = choose|q: int| 0 <= q < ps.len() && ps[q] == l;
                assert(self.has_loc(ps[q]));
            }
        }
        r
    }
}

impl Grid {
    /// Every cell can reach every other cell.
    pub open spec fn connected(self) -> bool {
        forall|a: Location, b: Location| self.has_loc(a) && self.has_loc(b) ==> #[trigger] reachable(self, a, b)
    }

    /// Whether every cell can reach every other cell, moving between
    /// 4-connected cells.
    pub fn is_connected(&self) -> (r: bool)
        requires
            self.wf(),
        ensures
            r == self.connected(),
    {
        let cells = self.locations();
        let ghost cl = Seq::new(cells@.len(), |k: int| cells@[k].0);
        proof {
            assert forall|k: int| 0 <= k < cl.len() implies self.has_loc(#[trigger] cl[k]) by {
                assert(self.cell_at(cells@[k].0.y as int, cells@[k].0.x as int) == Some(cells@[k].1));
            }
        }
        if cells.len() == 0 {
            proof {
                assert forall|a: Location, b: Location| self.has_loc(a) && self.has_loc(b) implies #[trigger] reachable(*self, a, b) by {
                    assert(self.has_cell(a.y as int, a.x as int));
                    assert(exists|k: int| 0 <= k < cells@.len() && cells@[k].0 == loc_of(a.y as int, a.x as int));
                }
            }
            return true;
        }
        let first = cells[0].0;
        proof {
            assert(self.has_loc(cl[0]));
            assert(is_route(*self, seq![first], first, first));
        }
        let mut seen: Vec<Location> = Vec::new();
        seen.push(first);
        let mut head: usize = 0;
        while head < seen.len()
            invariant
                self.wf(),
                cl.len() == cells@.len(),
                forall|k: int| 0 <= k < cl.len() ==> #[trigger] cl[k] == cells@[k].0,
                forall|k: int| 0 <= k < cl.len() ==> self.has_loc(#[trigger] cl[k]),
                forall|y: int, x: int| #[trigger] self.has_cell(y, x) ==> exists|k: int|
                    0 <= k < cells@.len() && cells@[k].0 == loc_of(y, x),
                self.has_loc(first),
                seen@.no_duplicates(),
                1 <= seen@.len() <= cl.len(),
                head <= seen@.len(),
                seen@[0] == first,
                forall|k: int| 0 <= k < seen@.len() ==> self.has_loc(#[trigger] seen@[k]),
                forall|k: int| 0 <= k < seen@.len() ==> reachable(*self, first, #[trigger] seen@[k]),
                forall|k: int, l: Location|
                    0 <= k < head && self.has_loc(l) && #[trigger] l.dist(seen@[k]) == 1 ==> seen@.contains(l),
            decreases 2 * cl.len() - seen@.len() - head,
        {
            let cur = seen[head];
            let nbrs = self.neighbors4(&cur);
            let ghost len0 = seen@.len();
            let mut q: usize = 0;
            while q < nbrs.len()
                invariant
                    self.wf(),
                    seen@.len() >= len0,
                    cl.len() == cells@.len(),
                    forall|k: int| 0 <= k < cl.len() ==> #[trigger] cl[k] == cells@[k].0,
                    forall|k: int| 0 <= k < cl.len() ==> self.has_loc(#[trigger] cl[k]),
                    forall|y: int, x: int| #[trigger] self.has_cell(y, x) ==> exists|k: int|
                        0 <= k < cells@.len() && cells@[k].0 == loc_of(y, x),
                    self.has_loc(first),
                    seen@.no_duplicates(),
                    1 <= seen@.len() <= cl.len(),
                    head < seen@.len(),
                    cur == seen@[head as int],
                    seen@[0] == first,
                    q <= nbrs@.len(),
                    forall|k: int| 0 <= k < nbrs@.len() ==> self.has_loc(#[trigger] nbrs@[k]) && nbrs@[k].dist(cur) == 1,
                    forall|k: int| 0 <= k < q ==> seen@.contains(#[trigger] nbrs@[k]),
                    forall|k: int| 0 <= k < seen@.len() ==> self.has_loc(#[trigger] seen@[k]),
                    forall|k: int| 0 <= k < seen@.len() ==> reachable(*self, first, #[trigger] seen@[k]),
                    forall|k: int, l: Location|
                        0 <= k < head && self.has_loc(l) && #[trigger] l.dist(seen@[k]) == 1 ==> seen@.contains(l),
                decreases nbrs@.len() - q,
            {
                let n = nbrs[q];
                let mut found = false;
                let mut t: usize = 0;
                while t < seen.len()
                    invariant
                        t <= seen@.len(),
                        found == exists|p: int| 0 <= p < t && seen@[p] == n,
                    decreases seen@.len() - t,
                {
                    if seen[t] == n {
                        found = true;
                    }
                    t += 1;
                }
                let ghost old_seen = seen@;
                if !found {
                    proof {
                        assert(self.has_loc(nbrs@[q as int]));
                        let path = choose|path: Seq<Location>| #[trigger] is_route(*self, path, first, cur);
                        assert(reachable(*self, first, cur));
                        let ext = path.push(n);
                        assert forall|i: int| 0 <= i < ext.len() - 1 implies step(*self, #[trigger] ext[i], ext[i + 1]) by {
                            if i < path.len() - 1 {
                                assert(ext[i] == path[i] && ext[i + 1] == path[i + 1]);
                            } else {
                                assert(ext[i] == cur);
                                assert(n.dist(cur) == 1);
                            }
                        }
                        assert(is_route(*self, ext, first, n));
                        // the new location is a cell not yet seen, so there is room for it
                        let seen_plus = old_seen.push(n);
                        assert(seen_plus.no_duplicates());
                        assert forall|l: Location| seen_plus.to_set().contains(l) implies cl.to_set().contains(l) by {
                            let p = choose|p: int| 0 <= p < seen_plus.len() && seen_plus[p] == l;
                            assert(self.has_loc(l));
                            assert(self.has_cell(l.y as int, l.x as int));
                            let k = choose|k: int| 0 <= k < cells@.len() && cells@[k].0 == loc_of(l.y as int, l.x as int);
                            assert(cl[k] == l);
                        }
                        seen_plus.unique_seq_to_set();
                        cl.lemma_cardinality_of_set();
                        vstd::set_lib::lemma_len_subset(seen_plus.to_set(), cl.to_set());
                    }
                    seen.push(n);
                    proof {
                        assert forall|a: int, b: int| 0 <= a < b < seen@.len() implies seen@[a] != seen@[b] by {
                            if b == seen@.len() - 1 {
                                assert(seen@[a] == old_seen[a]);
                            }
                        }
                        assert(seen@[seen@.len() - 1] == n);
                        assert forall|k: int| 0 <= k < seen@.len() implies reachable(*self, first, #[trigger] seen@[k]) by {
                            if k < old_seen.len() {
                                assert(seen@[k] == old_seen[k]);
                            }
                        }
                    }
                }
                proof {
                    assert forall|k: int| 0 <= k < q + 1 implies seen@.contains(#[trigger] nbrs@[k]) by {
                        if k < q {
                            let p = choose|p: int| 0 <= p < old_seen.len() && old_seen[p] == nbrs@[k];
                            assert(seen@[p] == nbrs@[k]);
                        } else if found {
                            let p = choose|p: int| 0 <= p < old_seen.len() && old_seen[p] == n;
                            assert(seen@[p] == n);
                        } else {
                            assert(seen@[seen@.len() - 1] == n);
                        }
                    }
                    assert forall|k: int, l: Location|
                        0 <= k < head && self.has_loc(l) && #[trigger] l.dist(seen@[k]) == 1 implies seen@.contains(l) by {
                        assert(seen@[k] == old_seen[k]);
                        let p = choose|p: int| 0 <= p < old_seen.len() && old_seen[p] == l;
                        assert(seen@[p] == l);
                    }
                }
                q += 1;
            }
            proof {
                assert forall|k: int, l: Location|
                    0 <= k < head + 1 && self.has_loc(l) && #[trigger] l.dist(seen@[k]) == 1 implies seen@.contains(l) by {
                    if k == head {
                        assert(nbrs@.contains(l));
                        let p = choose|p: int| 0 <= p < nbrs@.len() && nbrs@[p] == l;
                        assert(seen@.contains(nbrs@[p]));
                    }
                }
            }
            head += 1;
        }
        let mut k: usize = 0;
        while k < cells.len()
            invariant
                self.wf(),
                cl.len() == cells@.len(),
                forall|q: int| 0 <= q < cl.len() ==> #[trigger] cl[q] == cells@[q].0,
                forall|q: int| 0 <= q < cl.len() ==> self.has_loc(#[trigger] cl[q]),
                forall|y: int, x: int| #[trigger] self.has_cell(y, x) ==> exists|q: int|
                    0 <= q < cells@.len() && cells@[q].0 == loc_of(y, x),
                self.has_loc(first),
                seen@[0] == first,
                seen@.len() >= 1,
                k <= cells@.len(),
                forall|q: int| 0 <= q < k ==> seen@.contains(#[trigger] cl[q]),
                forall|q: int| 0 <= q < seen@.len() ==> reachable(*self, first, #[trigger] seen@[q]),
                forall|q: int, l: Location|
                    0 <= q < seen@.len() && self.has_loc(l) && #[trigger] l.dist(seen@[q]) == 1 ==> seen@.contains(l),
            decreases cells@.len() - k,
        {
            let c = cells[k].0;
            let mut found = false;
            let mut t: usize = 0;
            while t < seen.len()
                invariant
                    t <= seen@.len(),
                    found == exists|p: int| 0 <= p < t && seen@[p] == c,
                decreases seen@.len() - t,
            {
                if seen[t] == c {
                    found = true;
                }
                t += 1;
            }
            if !found {
                proof {
                    assert(cl[k as int] == c);
                    assert(self.has_loc(c));
                    if reachable(*self, first, c) {
                        let path = choose|path: Seq<Location>| #[trigger] is_route(*self, path, first, c);
                        assert(seen@.contains(first)) by {
                            assert(seen@[0] == first);
                        }
                        lemma_closed_route(*self, seen@, path, first, c, path.len() - 1);
                    }
                    assert(!reachable(*self, first, c));
                }
                return false;
            }
            k += 1;
        }
        proof {
            assert forall|a: Location, b: Location| self.has_loc(a) && self.has_loc(b) implies #[trigger] reachable(*self, a, b) by {
                assert(self.has_cell(a.y as int, a.x as int));
                assert(self.has_cell(b.y as int, b.x as int));
                let ka = choose|q: int| 0 <= q < cells@.len() && cells@[q].0 == loc_of(a.y as int, a.x as int);
                let kb = choose|q: int| 0 <= q < cells@.len() && cells@[q].0 == loc_of(b.y as int, b.x as int);
                assert(cl[ka] == a);
                assert(cl[kb] == b);
                assert(seen@.contains(cl[ka]));
                assert(seen@.contains(cl[kb]));
                let pa = choose|p: int| 0 <= p < seen@.len() && seen@[p] == a;
                let pb = choose|p: int| 0 <= p < seen@.len() && seen@[p] == b;
                assert(reachable(*self, first, seen@[pa]));
                assert(reachable(*self, first, seen@[pb]));
                let path_a = choose|path: Seq<Location>| #[trigger] is_route(*self, path, first, a);
                let path_b = choose|path: Seq<Location>| #[trigger] is_route(*self, path, first, b);
                lemma_route_reverse(*self, path_a, first, a);
                let back = choose|path: Seq<Location>| #[trigger] is_route(*self, path, a, first);
                lemma_route_concat(*self, back, path_b, a, first, b);
            }
        }
        true
    }
}

/// Appends to `r` each location of `items` that it does not hold yet.
fn add_unique(r: &mut Vec<Location>, items: &Vec<Location>)
    requires
        old(r)@.no_duplicates(),
    ensures
        final(r)@.no_duplicates(),
        forall|l: Location| final(r)@.contains(l) <==> old(r)@.contains(l) || items@.contains(l),
{
    let ghost start = r@;
    let mut k: usize = 0;
    while k < items.len()
        invariant
            k <= items@.len(),
            r@.no_duplicates(),
            forall|l: Location| r@.contains(l) <==> start.contains(l) || seen(items@, k as int, l),
        decreases items@.len() - k,
    {
        let item = items[k];
        let mut found = false;
        let mut q: usize = 0;
        while q < r.len()
            invariant
                q <= r@.len(),
                k < items@.len(),
                item == items@[k as int],
                r@.no_duplicates(),
                forall|l: Location| r@.contains(l) <==> start.contains(l) || seen(items@, k as int, l),
                found == exists|p: int| 0 <= p < q && r@[p] == item,
            decreases r@.len() - q,
        {
            if r[q] == item {
                found = true;
            }
            q += 1;
        }
        let ghost before_r = r@;
        if !found {
            r.push(item);
            assert forall|a: int, b: int| 0 <= a < b < r@.len() implies r@[a] != r@[b] by {
                if b == r@.len() - 1 {
                    assert(r@[a] == before_r[a]);
                }
            }
        }
        assert forall|l: Location| #![trigger r@.contains(l)] r@.contains(l) <==> start.contains(l) || seen(items@, k + 1, l) by {
            if l == item {
                assert(items@[k as int] == item);
                if found {
                    let p = choose|p: int| 0 <= p < q && before_r[p] == item;
                    assert(r@[p] == item);
                } else {
                    assert(r@[r@.len() - 1] == item);
                }
            } else {
                if r@.contains(l) {
                    let p = choose|p: int| 0 <= p < r@.len() && r@[p] == l;
                    assert(p < before_r.len());
                    assert(before_r[p] == l);
                    assert(before_r.contains(l));
                }
                if start.contains(l) || seen(items@, k + 1, l) {
                    if !start.contains(l) {
                        let p = choose|p: int| 0 <= p < k + 1 && items@[p] == l;
                        assert(seen(items@, k as int, l));
                    }
                    assert(before_r.contains(l));
                    let p = choose|p: int| 0 <= p < before_r.len() && before_r[p] == l;
                    assert(r@[p] == l);
                }
            }
        }
        k += 1;
    }
    assert forall|l: Location| seen(items@, items@.len() as int, l) <==> items@.contains(l) by {
        if items@.contains(l) {
            let p = choose|p: int| 0 <= p < items@.len() && items@[p] == l;
            assert(seen(items@, items@.len() as int, l));
        }
    }
}

/// `l` is among the first `k` items of `s`.
pub open spec fn seen(s: Seq<Location>, k: int, l: Location) -> bool {
    exists|p: int| 0 <= p < k && s[p] == l
}

/// One time step from `a` to `b`: stay, or move to a 4-connected neighbor
/// that holds a cell.
pub open spec fn step(grid: Grid, a: Location, b: Location) -> bool {
    a == b || (grid.has_loc(b) && a.dist(b) == 1)
}

/// `path` leads from `start` to `dest` one step at a time.
pub open spec fn is_route(grid: Grid, path: Seq<Location>, start: Location, dest: Location) -> bool {
    &&& path.len() >= 1
    &&& path[0] == start
    &&& path.last() == dest
    &&& forall|i: int| 0 <= i < path.len() - 1 ==> step(grid, #[trigger] path[i], path[i + 1])
}

/// Some route leads from `start` to `dest` on `grid`.
pub open spec fn reachable(grid: Grid, start: Location, dest: Location) -> bool {
    exists|path: Seq<Location>| #[trigger] is_route(grid, path, start, dest)
}

/// A route that starts on a cell stays on cells.
proof fn lemma_route_cells(grid: Grid, path: Seq<Location>, start: Location, dest: Location)
    requires
        is_route(grid, path, start, dest),
        grid.has_loc(start),
    ensures
        forall|i: int| 0 <= i < path.len() ==> grid.has_loc(#[trigger] path[i]),
{
    assert forall|i: int| 0 <= i < path.len() implies grid.has_loc(#[trigger] path[i]) by {
        lemma_route_cells_upto(grid, path, start, dest, i);
    }
}

proof fn lemma_route_cells_upto(grid: Grid, path: Seq<Location>, start: Location, dest: Location, i: int)
    requires
        is_route(grid, path, start, dest),
        grid.has_loc(start),
        0 <= i < path.len(),
    ensures
        grid.has_loc(path[i]),
    decreases i,
{
    if i > 0 {
        lemma_route_cells_upto(grid, path, start, dest, i - 1);
        assert(step(grid, path[i - 1], path[i]));
    }
}

/// Every location of a route is its start or holds a cell.
pub proof fn lemma_route_on_cells(grid: Grid, path: Seq<Location>, start: Location, dest: Location)
    requires
        is_route(grid, path, start, dest),
    ensures
        forall|i: int| 0 <= i < path.len() ==> #[trigger] path[i] == start || grid.has_loc(path[i]),
{
    assert forall|i: int| 0 <= i < path.len() implies #[trigger] path[i] == start || grid.has_loc(path[i]) by {
        lemma_route_on_cells_upto(grid, path, start, dest, i);
    }
}

proof fn lemma_route_on_cells_upto(grid: Grid, path: Seq<Location>, start: Location, dest: Location, i: int)
    requires
        is_route(grid, path, start, dest),
        0 <= i < path.len(),
    ensures
        path[i] == start || grid.has_loc(path[i]),
    decreases i,
{
    if i > 0 {
        lemma_route_on_cells_upto(grid, path, start, dest, i - 1);
        assert(step(grid, path[i - 1], path[i]));
    }
}

/// Between cells, routes run both ways.
proof fn lemma_route_reverse(grid: Grid, path: Seq<Location>, a: Location, b: Location)
    requires
        is_route(grid, path, a, b),
        grid.has_loc(a),
    ensures
        reachable(grid, b, a),
{
    lemma_route_cells(grid, path, a, b);
    let n = path.len();
    let rev = Seq::new(n, |i: int| path[n - 1 - i]);
    assert forall|i: int| 0 <= i < rev.len() - 1 implies step(grid, #[trigger] rev[i], rev[i + 1]) by {
        let j = n - 2 - i;
        assert(step(grid, path[j], path[j + 1]));
        assert(grid.has_loc(path[j]));
        assert(rev[i] == path[j + 1]);
        assert(rev[i + 1] == path[j]);
    }
    assert(is_route(grid, rev, b, a));
}

/// Routes compose.
proof fn lemma_route_concat(grid: Grid, p: Seq<Location>, q: Seq<Location>, a: Location, b: Location, c: Location)
    requires
        is_route(grid, p, a, b),
        is_route(grid, q, b, c),
    ensures
        reachable(grid, a, c),
{
    let r = p + q.drop_first();
    assert forall|i: int| 0 <= i < r.len() - 1 implies step(grid, #[trigger] r[i], r[i + 1]) by {
        if i < p.len() - 1 {
            assert(r[i] == p[i] && r[i + 1] == p[i + 1]);
        } else if i == p.len() - 1 {
            assert(r[i] == b);
            assert(r[i + 1] == q[1]);
            assert(step(grid, q[0], q[1]));
        } else {
            let j = i - p.len() + 1;
            assert(r[i] == q[j] && r[i + 1] == q[j + 1]);
        }
    }
    if q.len() == 1 {
        assert(r.last() == p.last());
    } else {
        assert(r.last() == q.last());
    }
    assert(is_route(grid, r, a, c));
}

/// A route from a member of a set closed under moves to neighboring cells
/// stays in that set.
pub(crate) proof fn lemma_closed_route(grid: Grid, seen: Seq<Location>, path: Seq<Location>, a: Location, b: Location, i: int)
    requires
        is_route(grid, path, a, b),
        seen.contains(a),
        forall|k: int, l: Location|
            0 <= k < seen.len() && grid.has_loc(l) && #[trigger] l.dist(seen[k]) == 1 ==> seen.contains(l),
        0 <= i < path.len(),
    ensures
        seen.contains(path[i]),
    decreases i,
{
    if i > 0 {
        lemma_closed_route(grid, seen, path, a, b, i - 1);
        assert(step(grid, path[i - 1], path[i]));
        if path[i - 1] != path[i] {
            let k = choose|k: int| 0 <= k < seen.len() && seen[k] == path[i - 1];
            assert(path[i].dist(seen[k]) == 1);
        }
    }
}

pub open spec fn four_offsets() -> Seq<Location> {
    seq![loc_of(0, -1), loc_of(-1, 0), loc_of(1, 0), loc_of(0, 1)]
}

pub open spec fn eight_offsets() -> Seq<Location> {
    seq![
        loc_of(-1, -1),
        loc_of(0, -1),
        loc_of(1, -1),
        loc_of(-1, 0),
        loc_of(1, 0),
        loc_of(-1, 1),
        loc_of(0, 1),
        loc_of(1, 1),
    ]
}

fn four_offsets_vec() -> (r: Vec<Location>)
    ensures
        r@ == four_offsets(),
{
    let mut r: Vec<Location> = Vec::new();
    r.push(Location { y: 0, x: -1 });
    r.push(Location { y: -1, x: 0 });
    r.push(Location { y: 1, x: 0 });
    r.push(Location { y: 0, x: 1 });
    assert(r@ == four_offsets());
    r
}

fn eight_offsets_vec() -> (r: Vec<Location>)
    ensures
        r@ == eight_offsets(),
{
    let mut r: Vec<Location> = Vec::new();
    r.push(Location { y: -1, x: -1 });
    r.push(Location { y: 0, x: -1 });
    r.push(Location { y: 1, x: -1 });
    r.push(Location { y: -1, x: 0 });
    r.push(Location { y: 1, x: 0 });
    r.push(Location { y: -1, x: 1 });
    r.push(Location { y: 0, x: 1 });
    r.push(Location { y: 1, x: 1 });
    assert(r@ == eight_offsets());
    r
}

/// Placing a board within an identical board, with no droplets, maps every
/// location to itself.
pub proof fn lemma_place_identity(g: Grid, snapshot: Snapshot, m: Seq<(Location, Location)>)
    requires
        g.wf(),
        snapshot.droplets@.len() == 0,
        g.placed(g, snapshot, m),
    ensures
        forall|k: int| 0 <= k < m.len() ==> (#[trigger] m[k]).1 == m[k].0,
{
    let (oy, ox) = choose|oy: int, ox: int| #[trigger] g.first_fit(g, snapshot, oy, ox) && g.is_mapping(m, oy, ox);
    if m.len() > 0 {
        // the last cell in row-major order has no cell after it, so the
        // shift that the mapping applies to it must be zero
        let n = m.len() as int;
        let last = m[n - 1].0;
        assert(g.has_loc(last));
        assert(g.has_cell(last.y + oy, last.x + ox));
        assert(g.vec@[last.y + oy]@.len() <= i32::MAX);
        let k = choose|k: int| 0 <= k < m.len() && m[k].0 == loc_of(last.y + oy, last.x + ox);
        if k < n - 1 {
            assert(before(m[k].0, m[n - 1].0));
        }
        assert(oy == 0 && ox == 0);
    }
    assert forall|k: int| 0 <= k < m.len() implies (#[trigger] m[k]).1 == m[k].0 by {
        assert(m[k].1 == loc_of(m[k].0.y + oy, m[k].0.x + ox));
    }
}

} // verus!
