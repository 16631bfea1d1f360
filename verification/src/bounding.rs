//! The bounding window: the half-open rectangle of coordinates that the
//! engine may touch.
use std::ops::Range;
use vstd::prelude::*;

verus! {

/// The rectangle `[x0, x1) x [y0, y1)`.
#[derive(Debug, Clone, Copy, PartialEq, Eq, Structural)]
pub struct Bounding {
    pub x0: i32,
    pub y0: i32,
    pub x1: i32,
    pub y1: i32,
}

/// The coordinate at offset `d` from `k`, where it exists as a pair of `i32`.
pub open spec fn shifted(k: (i32, i32), d: (i32, i32)) -> Option<(i32, i32)> {
    if i32::MIN <= k.0 + d.0 <= i32::MAX && i32::MIN <= k.1 + d.1 <= i32::MAX {
        Some(((k.0 + d.0) as i32, (k.1 + d.1) as i32))
    } else {
        None
    }
}

/// The coordinate at offset `d` from `(x, y)`. A coordinate that no `i32`
/// pair names lies outside every window and holds no record: `None`.
pub fn shift(x: i32, y: i32, d: (i32, i32)) -> (r: Option<(i32, i32)>)
    ensures
        r == shifted((x, y), d),
{
    match x.checked_add(d.0) {
        Some(nx) => match y.checked_add(d.1) {
            Some(ny) => Some((nx, ny)),
            None => None,
        },
        None => None,
    }
}

impl Bounding {
    /// Whether `(x, y)` lies in the rectangle.
    pub open spec fn holds(&self, k: (i32, i32)) -> bool {
        self.x0 <= k.0 < self.x1 && self.y0 <= k.1 < self.y1
    }

    /// The number of rows: the extent in `x`.
    pub open spec fn rows(&self) -> int {
        if self.x0 < self.x1 {
            self.x1 - self.x0
        } else {
            0
        }
    }

    /// The number of cells in a row: the extent in `y`.
    pub open spec fn cols(&self) -> int {
        if self.y0 < self.y1 {
            self.y1 - self.y0
        } else {
            0
        }
    }

    /// The rectangle between the corners `r.start` and `r.end`.
    pub open spec fn from_corners(r: Range<[i32; 2]>) -> Self {
        Bounding { x0: r.start[0], y0: r.start[1], x1: r.end[0], y1: r.end[1] }
    }

    /// The rectangle between the corners `r.start` and `r.end`.
    pub fn from_range(r: Range<[i32; 2]>) -> (b: Self)
        ensures
            b == Self::from_corners(r),
    {
        Bounding { x0: r.start[0], y0: r.start[1], x1: r.end[0], y1: r.end[1] }
    }

    /// The corners as a range, the inverse of `from_range`.
    pub fn to_range(&self) -> (r: Range<[i32; 2]>)
        ensures
            Self::from_corners(r) == *self,
    {
        Range { start: [self.x0, self.y0], end: [self.x1, self.y1] }
    }

    /// Whether `(x, y)` lies in the rectangle.
    pub fn contains(&self, x: i32, y: i32) -> (r: bool)
        ensures
            r == self.holds((x, y)),
    {
        x >= self.x0 && x < self.x1 && y >= self.y0 && y < self.y1
    }

    /// Where the cell in row `i`, place `j` stands in the row-by-row
    /// listing of the rectangle.
    pub open spec fn slot(&self, i: int, j: int) -> int {
        i * self.cols() + j
    }

    /// Every coordinate of the rectangle, row by row: `x` ascending, and
    /// `y` ascending within one `x`.
    pub fn cells(&self) -> (r: Vec<(i32, i32)>)
        ensures
            r@.len() == self.rows() * self.cols(),
            forall|i: int, j: int|
                0 <= i < self.rows() && 0 <= j < self.cols() ==> r@[#[trigger] self.slot(i, j)] == (
                    (self.x0 + i) as i32,
                    (self.y0 + j) as i32,
                ),
    {
        let mut out: Vec<(i32, i32)> = Vec::new();
        if self.x0 >= self.x1 || self.y0 >= self.y1 {
            assert(self.rows() * self.cols() == 0) by (nonlinear_arith)
                requires
                    self.rows() == 0 || self.cols() == 0,
            ;
            return out;
        }
        let mut x: i32 = self.x0;
        while x < self.x1
            invariant
                self.x0 < self.x1,
                self.y0 < self.y1,
                self.x0 <= x <= self.x1,
                out@.len() == (x - self.x0) * self.cols(),
                forall|i: int, j: int|
                    0 <= i < x - self.x0 && 0 <= j < self.cols() ==> out@[#[trigger] self.slot(
                        i,
                        j,
                    )] == ((self.x0 + i) as i32, (self.y0 + j) as i32),
            decreases self.x1 - x,
        {
            let ghost row: int = x - self.x0;
            let mut y: i32 = self.y0;
            while y < self.y1
                invariant
                    self.x0 < self.x1,
                    self.y0 < self.y1,
                    self.x0 <= x < self.x1,
                    row == x - self.x0,
                    self.y0 <= y <= self.y1,
                    out@.len() == self.slot(row, y - self.y0),
                    forall|i: int, j: int|
                        (0 <= i < row && 0 <= j < self.cols()) || (i == row && 0 <= j < y
                            - self.y0) ==> out@[#[trigger] self.slot(i, j)] == (
                            (self.x0 + i) as i32,
                            (self.y0 + j) as i32,
                        ),
                decreases self.y1 - y,
            {
                proof {
                    let n = out@.len() as int;
                    assert forall|i: int, j: int|
                        (0 <= i < row && 0 <= j < self.cols()) || (i == row && 0 <= j < y
                            - self.y0) implies #[trigger] self.slot(i, j) < n by {
                        self.lemma_slot_order(i, j, row, y - self.y0);
                    }
                }
                out.push((x, y));
                y += 1;
            }
            proof {
                assert(self.slot(row, self.cols()) == (row + 1) * self.cols())
                    by (nonlinear_arith)
                    requires
                        self.slot(row, self.cols()) == row * self.cols() + self.cols(),
                ;
            }
            x += 1;
        }
        out
    }

    /// The listing is in order: an earlier row, or an earlier place in the
    /// same row, has the smaller slot.
    pub proof fn lemma_slot_order(&self, i: int, j: int, m: int, n: int)
        requires
            0 <= j < self.cols(),
            0 <= n <= self.cols(),
            0 <= i < m || (i == m && j < n),
        ensures
            self.slot(i, j) < self.slot(m, n),
    {
        let c = self.cols();
        if i < m {
            assert(i * c + c <= m * c) by (nonlinear_arith)
                requires
                    i + 1 <= m,
                    c >= 0,
            ;
        }
    }
}

} // verus!
