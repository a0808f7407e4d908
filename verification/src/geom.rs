//! Integer screen geometry: points, drag deltas, rectangles.
//!
//! Coordinates are `i64` pixels. Additions saturate at the representable
//! range, so translating a position by a drag delta is total.

use vstd::prelude::*;

verus! {

/// A position on the render surface.
#[derive(Clone, Copy, Debug, PartialEq, Eq, Structural)]
pub struct Point2 {
    pub x: i64,
    pub y: i64,
}

/// A displacement, e.g. a pointer drag delta.
#[derive(Clone, Copy, Debug, PartialEq, Eq, Structural)]
pub struct Delta2 {
    pub x: i64,
    pub y: i64,
}

/// An axis-aligned rectangle given by two corners, `min` componentwise below
/// `max` whenever the rectangle is well formed.
#[derive(Clone, Copy, Debug, PartialEq, Eq, Structural)]
pub struct Rect2 {
    pub min: Point2,
    pub max: Point2,
}

/// Mathematical saturating addition: the sum, clamped to the `i64` range.
pub open spec fn sat_add_spec(a: int, b: int) -> int {
    if a + b > i64::MAX as int {
        i64::MAX as int
    } else if a + b < i64::MIN as int {
        i64::MIN as int
    } else {
        a + b
    }
}

/// Saturating addition on coordinates.
pub fn sat_add(a: i64, b: i64) -> (r: i64)
    ensures
        r as int == sat_add_spec(a as int, b as int),
{
    if b >= 0 {
        if a > i64::MAX - b {
            i64::MAX
        } else {
            a + b
        }
    } else {
        if a < i64::MIN - b {
            i64::MIN
        } else {
            a + b
        }
    }
}

/// Mathematical saturating subtraction: the difference, clamped to the
/// `i64` range.
pub open spec fn sat_sub_spec(a: int, b: int) -> int {
    if a - b > i64::MAX as int {
        i64::MAX as int
    } else if a - b < i64::MIN as int {
        i64::MIN as int
    } else {
        a - b
    }
}

/// Saturating subtraction on coordinates.
pub fn sat_sub(a: i64, b: i64) -> (r: i64)
    ensures
        r as int == sat_sub_spec(a as int, b as int),
{
    if b >= 0 {
        if a < i64::MIN + b {
            i64::MIN
        } else {
            a - b
        }
    } else {
        if a > i64::MAX + b {
            i64::MAX
        } else {
            a - b
        }
    }
}

impl Delta2 {
    /// The componentwise, saturating sum of two deltas.
    pub open spec fn spec_plus(self, other: Delta2) -> Delta2 {
        Delta2 { x: sat_add_spec(self.x as int, other.x as int) as i64, y: sat_add_spec(
            self.y as int,
            other.y as int,
        ) as i64 }
    }

    /// Accumulate another delta, e.g. a pan step.
    pub fn plus(self, other: Delta2) -> (r: Delta2)
        ensures
            r == self.spec_plus(other),
    {
        Delta2 { x: sat_add(self.x, other.x), y: sat_add(self.y, other.y) }
    }
}

impl Point2 {
    /// The point shifted by a delta, coordinatewise saturating.
    pub open spec fn spec_translated(self, d: Delta2) -> Point2 {
        Point2 { x: sat_add_spec(self.x as int, d.x as int) as i64, y: sat_add_spec(
            self.y as int,
            d.y as int,
        ) as i64 }
    }

    /// Shift this point by a drag delta.
    pub fn translated(self, d: Delta2) -> (r: Point2)
        ensures
            r == self.spec_translated(d),
    {
        Point2 { x: sat_add(self.x, d.x), y: sat_add(self.y, d.y) }
    }

    /// Squared Euclidean distance to `other` is below `radius * radius`.
    pub open spec fn spec_within_radius(self, other: Point2, radius: int) -> bool {
        let dx = self.x - other.x;
        let dy = self.y - other.y;
        dx * dx + dy * dy < radius * radius
    }

    /// Proximity test used for port snapping: strictly closer than `radius`.
    pub fn within_radius(self, other: Point2, radius: i64) -> (r: bool)
        requires
            0 < radius <= 1_000_000,
        ensures
            r == self.spec_within_radius(other, radius as int),
    {
        let dx: i128 = self.x as i128 - other.x as i128;
        let dy: i128 = self.y as i128 - other.y as i128;
        if dx >= radius as i128 || dx <= -(radius as i128) {
            proof {
                let dxi = self.x - other.x;
                let dyi = self.y - other.y;
                assert(dxi * dxi >= radius * radius) by (nonlinear_arith)
                    requires
                        dxi >= radius || dxi <= -radius,
                        radius > 0,
                ;
                assert(dyi * dyi >= 0) by (nonlinear_arith);
            }
            false
        } else if dy >= radius as i128 || dy <= -(radius as i128) {
            proof {
                let dxi = self.x - other.x;
                let dyi = self.y - other.y;
                assert(dyi * dyi >= radius * radius) by (nonlinear_arith)
                    requires
                        dyi >= radius || dyi <= -radius,
                        radius > 0,
                ;
                assert(dxi * dxi >= 0) by (nonlinear_arith);
            }
            false
        } else {
            proof {
                assert(0 <= dx * dx < radius * radius && 0 <= dy * dy < radius * radius && 0
                    < radius * radius <= 1_000_000_000_000) by (nonlinear_arith)
                    requires
                        -radius < dx < radius,
                        -radius < dy < radius,
                        0 < radius <= 1_000_000,
                ;
            }
            let dx2: i128 = dx * dx;
            let dy2: i128 = dy * dy;
            let rr: i128 = (radius as i128) * (radius as i128);
            dx2 + dy2 < rr
        }
    }
}

impl Rect2 {
    /// The rectangle spanned by two arbitrary corner points.
    pub open spec fn spec_from_two_pos(a: Point2, b: Point2) -> Rect2 {
        Rect2 {
            min: Point2 {
                x: if a.x <= b.x {
                    a.x
                } else {
                    b.x
                },
                y: if a.y <= b.y {
                    a.y
                } else {
                    b.y
                },
            },
            max: Point2 {
                x: if a.x <= b.x {
                    b.x
                } else {
                    a.x
                },
                y: if a.y <= b.y {
                    b.y
                } else {
                    a.y
                },
            },
        }
    }

    /// Build the rectangle spanned by two corner points, e.g. the box-select
    /// start point and the current pointer position.
    pub fn from_two_pos(a: Point2, b: Point2) -> (r: Rect2)
        ensures
            r == Self::spec_from_two_pos(a, b),
    {
        Rect2 {
            min: Point2 {
                x: if a.x <= b.x {
                    a.x
                } else {
                    b.x
                },
                y: if a.y <= b.y {
                    a.y
                } else {
                    b.y
                },
            },
            max: Point2 {
                x: if a.x <= b.x {
                    b.x
                } else {
                    a.x
                },
                y: if a.y <= b.y {
                    b.y
                } else {
                    a.y
                },
            },
        }
    }

    /// The point lies inside the rectangle (inclusive edges).
    pub open spec fn spec_contains(self, p: Point2) -> bool {
        self.min.x <= p.x <= self.max.x && self.min.y <= p.y <= self.max.y
    }

    /// Point-in-rectangle test.
    pub fn contains(&self, p: Point2) -> (r: bool)
        ensures
            r == self.spec_contains(p),
    {
        self.min.x <= p.x && p.x <= self.max.x && self.min.y <= p.y && p.y <= self.max.y
    }

    /// The two rectangles overlap (inclusive edges).
    pub open spec fn spec_intersects(self, other: Rect2) -> bool {
        self.min.x <= other.max.x && other.min.x <= self.max.x && self.min.y <= other.max.y
            && other.min.y <= self.max.y
    }

    /// Rectangle overlap test used by box selection.
    pub fn intersects(&self, other: &Rect2) -> (r: bool)
        ensures
            r == self.spec_intersects(*other),
    {
        self.min.x <= other.max.x && other.min.x <= self.max.x && self.min.y <= other.max.y
            && other.min.y <= self.max.y
    }
}

} // verus!
