use vstd::prelude::*;

verus! {

/// Largest absolute value of any coordinate handled by the spatial index.
pub const COORD_LIMIT: i64 = 1_000_000_000_000;

/// A closed axis-aligned box of integer coordinates: `min_x <= x <= max_x`,
/// `min_y <= y <= max_y`. A box with `max < min` on an axis is empty.
#[derive(Clone, Copy, Debug, PartialEq, Eq, Structural)]
pub struct Rect {
    pub min_x: i64,
    pub min_y: i64,
    pub max_x: i64,
    pub max_y: i64,
}

/// A point stored in the index together with the slot of the agent it stands for.
#[derive(Clone, Copy, Debug, PartialEq, Eq, Structural)]
pub struct Entry {
    pub x: i64,
    pub y: i64,
    pub id: usize,
}

pub open spec fn coord_ok(c: int) -> bool {
    -COORD_LIMIT <= c <= COORD_LIMIT
}

pub open spec fn clamp_spec(v: int, lo: int, hi: int) -> int {
    if v < lo {
        lo
    } else if v > hi {
        hi
    } else {
        v
    }
}

impl Rect {
    /// Bounds are within the coordinate limit (a lower bound may sit one step past
    /// it) and each axis is at most one step past empty.
    pub open spec fn wf(self) -> bool {
        -COORD_LIMIT <= self.min_x <= COORD_LIMIT + 1 && coord_ok(self.max_x as int)
            && -COORD_LIMIT <= self.min_y <= COORD_LIMIT + 1 && coord_ok(self.max_y as int)
            && self.min_x <= self.max_x + 1 && self.min_y <= self.max_y + 1
    }

    pub open spec fn contains(self, x: int, y: int) -> bool {
        self.min_x <= x <= self.max_x && self.min_y <= y <= self.max_y
    }

    pub open spec fn holds(self, e: Entry) -> bool {
        self.contains(e.x as int, e.y as int)
    }

    pub open spec fn nonempty(self) -> bool {
        self.min_x <= self.max_x && self.min_y <= self.max_y
    }

    /// At most one lattice point lies in the box: it cannot be split further.
    pub open spec fn is_point(self) -> bool {
        self.max_x <= self.min_x && self.max_y <= self.min_y
    }

    pub open spec fn overlaps(self, o: Rect) -> bool {
        self.min_x <= o.max_x && o.min_x <= self.max_x && self.min_y <= o.max_y && o.min_y
            <= self.max_y
    }

    pub open spec fn measure(self) -> int {
        (self.max_x - self.min_x) + (self.max_y - self.min_y)
    }

    pub open spec fn mid_x(self) -> int {
        self.min_x + (self.max_x - self.min_x) / 2
    }

    pub open spec fn mid_y(self) -> int {
        self.min_y + (self.max_y - self.min_y) / 2
    }

    /// Quadrant `k` of a box split at its midpoint: bit 0 of `k` picks the upper
    /// half in x, bit 1 the upper half in y. A point on a split line belongs to
    /// the lower half.
    pub open spec fn quadrant(self, k: int) -> Rect {
        let (lx, hx) = if k % 2 == 0 {
            (self.min_x as int, self.mid_x())
        } else {
            (self.mid_x() + 1, self.max_x as int)
        };
        let (ly, hy) = if k / 2 == 0 {
            (self.min_y as int, self.mid_y())
        } else {
            (self.mid_y() + 1, self.max_y as int)
        };
        Rect { min_x: lx as i64, min_y: ly as i64, max_x: hx as i64, max_y: hy as i64 }
    }

    pub open spec fn quadrant_of(self, x: int, y: int) -> int {
        (if x <= self.mid_x() {
            0int
        } else {
            1int
        }) + (if y <= self.mid_y() {
            0int
        } else {
            2int
        })
    }

    pub open spec fn clamp_entry(self, e: Entry) -> Entry {
        Entry {
            x: clamp_spec(e.x as int, self.min_x as int, self.max_x as int) as i64,
            y: clamp_spec(e.y as int, self.min_y as int, self.max_y as int) as i64,
            id: e.id,
        }
    }

    pub fn contains_point(&self, x: i64, y: i64) -> (r: bool)
        ensures
            r == self.contains(x as int, y as int),
    {
        self.min_x <= x && x <= self.max_x && self.min_y <= y && y <= self.max_y
    }

    pub fn overlaps_rect(&self, o: &Rect) -> (r: bool)
        ensures
            r == self.overlaps(*o),
    {
        self.min_x <= o.max_x && o.min_x <= self.max_x && self.min_y <= o.max_y && o.min_y
            <= self.max_y
    }

    pub fn is_single_point(&self) -> (r: bool)
        ensures
            r == self.is_point(),
    {
        self.max_x <= self.min_x && self.max_y <= self.min_y
    }

    pub fn quadrant_exec(&self, k: u8) -> (r: Rect)
        requires
            self.wf(),
            self.nonempty(),
            k < 4,
        ensures
            r == self.quadrant(k as int),
            r.wf(),
    {
        let mx = self.min_x + (self.max_x - self.min_x) / 2;
        let my = self.min_y + (self.max_y - self.min_y) / 2;
        let (lx, hx) = if k % 2 == 0 {
            (self.min_x, mx)
        } else {
            (mx + 1, self.max_x)
        };
        let (ly, hy) = if k / 2 == 0 {
            (self.min_y, my)
        } else {
            (my + 1, self.max_y)
        };
        Rect { min_x: lx, min_y: ly, max_x: hx, max_y: hy }
    }

    pub fn quadrant_index(&self, x: i64, y: i64) -> (k: u8)
        requires
            self.wf(),
            self.nonempty(),
        ensures
            k as int == self.quadrant_of(x as int, y as int),
            k < 4,
    {
        let mx = self.min_x + (self.max_x - self.min_x) / 2;
        let my = self.min_y + (self.max_y - self.min_y) / 2;
        let a: u8 = if x <= mx {
            0
        } else {
            1
        };
        let b: u8 = if y <= my {
            0
        } else {
            2
        };
        a + b
    }

    /// Moves a point to the nearest point of the box.
    pub fn clamp_entry_exec(&self, e: Entry) -> (r: Entry)
        requires
            self.nonempty(),
        ensures
            r == self.clamp_entry(e),
            self.holds(r),
    {
        let x = if e.x < self.min_x {
            self.min_x
        } else if e.x > self.max_x {
            self.max_x
        } else {
            e.x
        };
        let y = if e.y < self.min_y {
            self.min_y
        } else if e.y > self.max_y {
            self.max_y
        } else {
            e.y
        };
        Entry { x, y, id: e.id }
    }

    /// The point lies in the quadrant that `quadrant_of` names, and the quadrant
    /// is a smaller well-formed box.
    pub proof fn lemma_quadrant_of(self, x: int, y: int)
        requires
            self.wf(),
            self.nonempty(),
            self.contains(x, y),
        ensures
            0 <= self.quadrant_of(x, y) < 4,
            self.quadrant(self.quadrant_of(x, y)).contains(x, y),
            self.quadrant(self.quadrant_of(x, y)).measure() >= 0,
            !self.is_point() ==> self.quadrant(self.quadrant_of(x, y)).measure() < self.measure(),
    {
    }

    pub proof fn lemma_quadrant_wf(self, k: int)
        requires
            self.wf(),
            self.nonempty(),
            0 <= k < 4,
        ensures
            self.quadrant(k).wf(),
            forall|x: int, y: int| #[trigger]
                self.quadrant(k).contains(x, y) ==> self.contains(x, y),
    {
    }
}

} // verus!
