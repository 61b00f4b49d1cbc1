//! Integer 2-D coordinates, Moore-neighborhood offsets, bounds testing.

use vstd::prelude::*;

verus! {

/// A signed 2-D pixel coordinate. Signed fields let neighbor offsets be
/// applied at the tile border without underflow checks.
#[derive(Clone, Copy, Debug, PartialEq, Eq, Structural)]
pub struct Coordinates {
    pub x: i64,
    pub y: i64,
}

/// The Moore-neighborhood offset with scan index `k`: the eight unit vectors
/// around a cell, excluding (0, 0), ordered row by row from the upper-left.
pub open spec fn direction(k: int) -> Coordinates {
    if k == 0 {
        Coordinates { x: -1i64, y: -1i64 }
    } else if k == 1 {
        Coordinates { x: 0i64, y: -1i64 }
    } else if k == 2 {
        Coordinates { x: 1i64, y: -1i64 }
    } else if k == 3 {
        Coordinates { x: -1i64, y: 0i64 }
    } else if k == 4 {
        Coordinates { x: 1i64, y: 0i64 }
    } else if k == 5 {
        Coordinates { x: -1i64, y: 1i64 }
    } else if k == 6 {
        Coordinates { x: 0i64, y: 1i64 }
    } else {
        Coordinates { x: 1i64, y: 1i64 }
    }
}

impl Coordinates {
    /// Component-wise sum as a mathematical value; the casts make the
    /// function total, and are exact whenever the sums fit in `i64`.
    pub open spec fn plus(self, rhs: Coordinates) -> Coordinates {
        Coordinates { x: (self.x + rhs.x) as i64, y: (self.y + rhs.y) as i64 }
    }

    /// True iff `min <= self < max` holds on both axes.
    pub open spec fn in_rect(self, min: Coordinates, max: Coordinates) -> bool {
        min.x <= self.x < max.x && min.y <= self.y < max.y
    }

    /// The eight Moore offsets, in the fixed scan order of [`direction`].
    pub fn all_directions() -> (r: [Coordinates; 8])
        ensures
            forall|k: int| 0 <= k < 8 ==> r[k] == direction(k),
    {
        let r = [
            Coordinates { x: -1, y: -1 },
            Coordinates { x: 0, y: -1 },
            Coordinates { x: 1, y: -1 },
            Coordinates { x: -1, y: 0 },
            Coordinates { x: 1, y: 0 },
            Coordinates { x: -1, y: 1 },
            Coordinates { x: 0, y: 1 },
            Coordinates { x: 1, y: 1 },
        ];
        assert(forall|k: int| 0 <= k < 8 ==> r[k] == direction(k)) by {
            assert(r[0] == direction(0));
            assert(r[1] == direction(1));
            assert(r[2] == direction(2));
            assert(r[3] == direction(3));
            assert(r[4] == direction(4));
            assert(r[5] == direction(5));
            assert(r[6] == direction(6));
            assert(r[7] == direction(7));
        }
        r
    }

    /// Whether the coordinate lies in the half-open rectangle `[min, max)`.
    pub fn is_in_rect(&self, min: &Coordinates, max: &Coordinates) -> (r: bool)
        ensures
            r == self.in_rect(*min, *max),
    {
        (min.x <= self.x && self.x < max.x) && (min.y <= self.y && self.y < max.y)
    }

    /// Component-wise sum.
    pub fn add(self, rhs: Coordinates) -> (r: Coordinates)
        requires
            i64::MIN <= self.x + rhs.x <= i64::MAX,
            i64::MIN <= self.y + rhs.y <= i64::MAX,
        ensures
            r == self.plus(rhs),
            r.x == self.x + rhs.x,
            r.y == self.y + rhs.y,
    {
        Coordinates { x: self.x + rhs.x, y: self.y + rhs.y }
    }
}

} // verus!
