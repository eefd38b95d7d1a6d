use vstd::prelude::*;

verus! {

/// Largest coordinate magnitude on which the geometry helpers are asked to
/// work; far above anything the radius-4 board can produce, and small enough
/// that stepping to a neighbour can never overflow an `i32`.
pub const COORD_LIMIT: i32 = 1_000_000;

/// One cell of the hexagonal grid, addressed by axial coordinates.
///
/// The six neighbour directions are numbered `0` to `5`, counter-clockwise,
/// and direction `d + 3` is the exact opposite of direction `d`.
#[derive(Debug, Copy, Clone, Eq, PartialEq, Structural)]
pub struct HexPosition {
    pub q: i32,
    pub r: i32,
}

/// The axial offset of neighbour direction `d` (for `0 <= d < 6`).
pub open spec fn dir_offset(d: int) -> (int, int) {
    if d == 0 {
        (1, 0)
    } else if d == 1 {
        (1, -1)
    } else if d == 2 {
        (0, -1)
    } else if d == 3 {
        (-1, 0)
    } else if d == 4 {
        (-1, 1)
    } else {
        (0, 1)
    }
}

/// The cell one step away from `c` in direction `d`.
pub open spec fn step(c: (int, int), d: int) -> (int, int) {
    (c.0 + dir_offset(d).0, c.1 + dir_offset(d).1)
}

/// The cell `k` steps away from `c` in direction `d`.
pub open spec fn step_k(c: (int, int), d: int, k: nat) -> (int, int)
    decreases k,
{
    if k == 0 {
        c
    } else {
        step(step_k(c, d, (k - 1) as nat), d)
    }
}

/// The first three cells out along a ray, written as repeated steps.
pub proof fn lemma_step_k_unfold(c: (int, int), d: int)
    ensures
        step_k(c, d, 1) == step(c, d),
        step_k(c, d, 2) == step(step_k(c, d, 1), d),
        step_k(c, d, 3) == step(step_k(c, d, 2), d),
{
    reveal_with_fuel(step_k, 5);
}

/// Whether axial coordinates `c` lie on the radius-4 hexagonal board.
pub open spec fn in_board_c(c: (int, int)) -> bool {
    -4 <= c.0 <= 4 && -4 <= c.1 <= 4 && -4 <= c.0 + c.1 <= 4
}

impl View for HexPosition {
    type V = (int, int);

    open spec fn view(&self) -> (int, int) {
        (self.q as int, self.r as int)
    }
}

impl HexPosition {
    /// Builds the cell with axial coordinates `(q, r)`.
    pub fn from_axial(q: i32, r: i32) -> (p: HexPosition)
        ensures
            p@ == (q as int, r as int),
    {
        HexPosition { q, r }
    }

    /// The axial coordinates of this cell.
    pub fn as_axial(&self) -> (c: (i32, i32))
        ensures
            c.0 as int == self@.0,
            c.1 as int == self@.1,
    {
        (self.q, self.r)
    }

    /// The neighbouring cell in direction `d`; directions are taken modulo 6.
    pub fn neighbor(&self, d: usize) -> (p: HexPosition)
        requires
            -COORD_LIMIT <= self@.0 <= COORD_LIMIT,
            -COORD_LIMIT <= self@.1 <= COORD_LIMIT,
        ensures
            p@ == step(self@, (d % 6) as int),
            p@.0 - self@.0 <= 1 && self@.0 - p@.0 <= 1,
            p@.1 - self@.1 <= 1 && self@.1 - p@.1 <= 1,
    {
        let dd = d % 6;
        let (dq, dr): (i32, i32) = if dd == 0 {
            (1, 0)
        } else if dd == 1 {
            (1, -1)
        } else if dd == 2 {
            (0, -1)
        } else if dd == 3 {
            (-1, 0)
        } else if dd == 4 {
            (-1, 1)
        } else {
            (0, 1)
        };
        HexPosition { q: self.q + dq, r: self.r + dr }
    }

    /// Whether this cell lies on the board.
    pub fn is_on_board(&self) -> (b: bool)
        ensures
            b == in_board_c(self@),
    {
        -4 <= self.q && self.q <= 4 && -4 <= self.r && self.r <= 4 && -4 <= self.q + self.r
            && self.q + self.r <= 4
    }
}

} // verus!
