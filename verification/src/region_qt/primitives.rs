//! Geometry primitives: integer points and axis-aligned bounding boxes with
//! the fixed center-split rule that quarters a box into its four quadrants.

use vstd::prelude::*;

verus! {

/// An integer pixel coordinate.
#[derive(Clone, Copy, PartialEq, Eq, Structural, Debug)]
pub struct Point {
    pub x: u32,
    pub y: u32,
}

impl Point {
    /// Component-wise addition.
    pub fn add(self, other: Point) -> (r: Point)
        requires
            self.x + other.x <= u32::MAX,
            self.y + other.y <= u32::MAX,
        ensures
            r.x == self.x + other.x,
            r.y == self.y + other.y,
    {
        Point { x: self.x + other.x, y: self.y + other.y }
    }

    /// Component-wise subtraction.
    pub fn sub(self, rhs: Point) -> (r: Point)
        requires
            rhs.x <= self.x,
            rhs.y <= self.y,
        ensures
            r.x == self.x - rhs.x,
            r.y == self.y - rhs.y,
    {
        Point { x: self.x - rhs.x, y: self.y - rhs.y }
    }

    /// Component-wise division by a scalar, rounding down (all coordinates
    /// are non-negative).
    pub fn div(self, rhs: u32) -> (r: Point)
        requires
            rhs > 0,
        ensures
            r.x == self.x as int / rhs as int,
            r.y == self.y as int / rhs as int,
    {
        Point { x: self.x / rhs, y: self.y / rhs }
    }
}

impl From<(u32, u32)> for Point {
    fn from(value: (u32, u32)) -> (r: Point)
        ensures
            r.x == value.0,
            r.y == value.1,
    {
        Point { x: value.0, y: value.1 }
    }
}

impl vstd::std_specs::convert::FromSpecImpl<(u32, u32)> for Point {
    open spec fn obeys_from_spec() -> bool {
        true
    }

    open spec fn from_spec(value: (u32, u32)) -> Point {
        Point { x: value.0, y: value.1 }
    }
}

/// An axis-aligned rectangle `[min.x, max.x) x [min.y, max.y)` of pixels,
/// held as its two corners. Valid boxes keep `min <= max` component-wise;
/// every operation below demands validity.
#[derive(Clone, Copy, PartialEq, Eq, Structural, Debug)]
pub struct BoundingBox {
    pub min: Point,
    pub max: Point,
}

impl BoundingBox {
    /// The corner invariant: `min <= max` in both axes.
    pub open spec fn valid(self) -> bool {
        self.min.x <= self.max.x && self.min.y <= self.max.y
    }

    /// Number of pixel columns covered.
    pub open spec fn width(self) -> int {
        self.max.x - self.min.x
    }

    /// Number of pixel rows covered.
    pub open spec fn height(self) -> int {
        self.max.y - self.min.y
    }

    /// A box is divisible when quartering it still shrinks it somewhere.
    pub open spec fn divisible(self) -> bool {
        self.width() > 1 || self.height() > 1
    }

    /// The split point: the component-wise floor average of the corners.
    /// Every quartering of a box derives from this single formula.
    pub open spec fn spec_center(self) -> Point {
        Point {
            x: ((self.min.x + self.max.x) / 2) as u32,
            y: ((self.min.y + self.max.y) / 2) as u32,
        }
    }

    /// Pixel membership in the half-open rectangle.
    pub open spec fn contains_pixel(self, x: int, y: int) -> bool {
        self.min.x <= x < self.max.x && self.min.y <= y < self.max.y
    }

    /// The quadrant boxes, in canonical index order:
    /// 0 top-left, 1 top-right, 2 bottom-left, 3 bottom-right.
    pub open spec fn spec_quadrant(self, i: int) -> BoundingBox {
        let c = self.spec_center();
        if i == 0 {
            BoundingBox { min: Point { x: self.min.x, y: c.y }, max: Point { x: c.x, y: self.max.y } }
        } else if i == 1 {
            BoundingBox { min: c, max: self.max }
        } else if i == 2 {
            BoundingBox { min: self.min, max: c }
        } else {
            BoundingBox { min: Point { x: c.x, y: self.min.y }, max: Point { x: self.max.x, y: c.y } }
        }
    }

    /// The index of the quadrant whose half-open rectangle holds `(x, y)`,
    /// read off by comparing against the center.
    pub open spec fn quadrant_index(self, x: int, y: int) -> int {
        let c = self.spec_center();
        if x < c.x {
            if y < c.y {
                2
            } else {
                0
            }
        } else {
            if y < c.y {
                3
            } else {
                1
            }
        }
    }

    pub fn new(min: Point, max: Point) -> (r: BoundingBox)
        requires
            min.x <= max.x,
            min.y <= max.y,
        ensures
            r.min == min,
            r.max == max,
            r.valid(),
    {
        BoundingBox { min, max }
    }

    pub fn min(&self) -> (r: &Point)
        ensures
            *r == self.min,
    {
        &self.min
    }

    pub fn max(&self) -> (r: &Point)
        ensures
            *r == self.max,
    {
        &self.max
    }

    /// The split point `(min + max) / 2`, computed without overflow.
    pub fn center(&self) -> (c: Point)
        requires
            self.valid(),
        ensures
            c == self.spec_center(),
    {
        proof {
            lemma_floor_average(self.min.x as int, self.max.x as int);
            lemma_floor_average(self.min.y as int, self.max.y as int);
        }
        Point {
            x: self.min.x + (self.max.x - self.min.x) / 2,
            y: self.min.y + (self.max.y - self.min.y) / 2,
        }
    }

    /// Whether the point lies in the closed rectangle spanned by the corners.
    pub fn contains(&self, p: Point) -> (r: bool)
        ensures
            r == (self.min.x <= p.x <= self.max.x && self.min.y <= p.y <= self.max.y),
    {
        self.min.x <= p.x && p.x <= self.max.x && self.min.y <= p.y && p.y <= self.max.y
    }

    /// The four border edges of the box, corner to corner.
    pub fn get_bounds(&self) -> (r: Vec<(Point, Point)>)
        ensures
            r@ == seq![
                (self.min, Point { x: self.min.x, y: self.max.y }),
                (Point { x: self.min.x, y: self.max.y }, self.max),
                (self.max, Point { x: self.max.x, y: self.min.y }),
                (Point { x: self.max.x, y: self.min.y }, self.min),
            ],
    {
        let mut r: Vec<(Point, Point)> = Vec::new();
        r.push((self.min, Point { x: self.min.x, y: self.max.y }));
        r.push((Point { x: self.min.x, y: self.max.y }, self.max));
        r.push((self.max, Point { x: self.max.x, y: self.min.y }));
        r.push((Point { x: self.max.x, y: self.min.y }, self.min));
        proof {
            assert(r@ =~= seq![
                (self.min, Point { x: self.min.x, y: self.max.y }),
                (Point { x: self.min.x, y: self.max.y }, self.max),
                (self.max, Point { x: self.max.x, y: self.min.y }),
                (Point { x: self.max.x, y: self.min.y }, self.min),
            ]);
        }
        r
    }
}

impl BoundingBox {
    /// One quadrant of the box, by canonical index.
    pub fn quadrant(&self, i: usize) -> (r: BoundingBox)
        requires
            self.valid(),
            i < 4,
        ensures
            r == self.spec_quadrant(i as int),
            r.valid(),
    {
        proof {
            lemma_quadrant_geometry(*self);
        }
        let c = self.center();
        if i == 0 {
            BoundingBox::new(Point { x: self.min.x, y: c.y }, Point { x: c.x, y: self.max.y })
        } else if i == 1 {
            BoundingBox::new(c, self.max)
        } else if i == 2 {
            BoundingBox::new(self.min, c)
        } else {
            BoundingBox::new(Point { x: c.x, y: self.min.y }, Point { x: self.max.x, y: c.y })
        }
    }
}

/// Floor halving of a non-negative length: `d / 2` stays within `[0, d]`,
/// and sits strictly inside once `d` reaches 2.
pub proof fn lemma_half_range(d: int)
    requires
        0 <= d,
    ensures
        0 <= d / 2 <= d,
        d >= 2 ==> 1 <= d / 2 <= d - 1,
        d <= 1 ==> d / 2 == 0,
{
    assert(0 <= d / 2 <= d) by (nonlinear_arith)
        requires
            0 <= d,
    ;
    assert(d >= 2 ==> 1 <= d / 2 <= d - 1) by (nonlinear_arith);
    assert(d <= 1 && d >= 0 ==> d / 2 == 0) by (nonlinear_arith);
}

/// Shape of the four quadrants of a valid box: where the center sits, that
/// each quadrant is a valid box inside the parent, and that quartering a
/// divisible box strictly shrinks the measure `width + height`.
pub proof fn lemma_quadrant_geometry(b: BoundingBox)
    requires
        b.valid(),
    ensures
        b.min.x <= b.spec_center().x <= b.max.x,
        b.min.y <= b.spec_center().y <= b.max.y,
        b.spec_center().x - b.min.x == b.width() / 2,
        b.spec_center().y - b.min.y == b.height() / 2,
        b.width() >= 1 ==> b.spec_center().x < b.max.x,
        b.height() >= 1 ==> b.spec_center().y < b.max.y,
        forall|i: int| 0 <= i < 4 ==> (#[trigger] b.spec_quadrant(i)).valid(),
        forall|i: int| 0 <= i < 4 ==> b.min.x <= (#[trigger] b.spec_quadrant(i)).min.x
            && b.spec_quadrant(i).max.x <= b.max.x
            && b.min.y <= b.spec_quadrant(i).min.y
            && b.spec_quadrant(i).max.y <= b.max.y,
        b.width() >= 1 && b.height() >= 1 ==> forall|i: int| 0 <= i < 4 ==>
            (#[trigger] b.spec_quadrant(i)).min.x < b.max.x
            && b.spec_quadrant(i).min.y < b.max.y,
        b.divisible() ==> forall|i: int| 0 <= i < 4 ==>
            (#[trigger] b.spec_quadrant(i)).width() + b.spec_quadrant(i).height()
                < b.width() + b.height(),
{
    lemma_floor_average(b.min.x as int, b.max.x as int);
    lemma_floor_average(b.min.y as int, b.max.y as int);
    lemma_half_range(b.width());
    lemma_half_range(b.height());
}

/// Partition law: every pixel of a valid box lies in the quadrant its
/// center comparison selects, and in no other quadrant — the four quadrants
/// cover the box exactly, with no gaps and no overlaps.
pub proof fn lemma_quadrants_partition(b: BoundingBox)
    requires
        b.valid(),
    ensures
        forall|x: int, y: int| #[trigger] b.contains_pixel(x, y) ==>
            0 <= b.quadrant_index(x, y) < 4
            && b.spec_quadrant(b.quadrant_index(x, y)).contains_pixel(x, y),
        forall|i: int, x: int, y: int|
            0 <= i < 4 && #[trigger] b.spec_quadrant(i).contains_pixel(x, y) ==>
                b.contains_pixel(x, y) && i == b.quadrant_index(x, y),
{
    lemma_quadrant_geometry(b);
}

/// For `0 <= a <= b`, the floor average `(a + b) / 2` equals `a + (b - a) / 2`
/// and lies between `a` and `b`.
pub proof fn lemma_floor_average(a: int, b: int)
    requires
        0 <= a <= b,
    ensures
        (a + b) / 2 == a + (b - a) / 2,
        a <= (a + b) / 2 <= b,
        b > a ==> (a + b) / 2 < b,
{
    let d = b - a;
    assert((2 * a + d) / 2 == a + d / 2) by (nonlinear_arith);
    assert(0 <= d / 2 <= d) by (nonlinear_arith)
        requires
            0 <= d,
    ;
    assert(d > 0 ==> d / 2 < d) by (nonlinear_arith);
}

} // verus!
