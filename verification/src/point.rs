use vstd::prelude::*;

verus! {

/// A pixel position: `x` grows to the right, `y` grows downwards.
#[derive(Clone, Copy, Debug, PartialEq, Eq, Structural)]
pub struct Point {
    pub x: i32,
    pub y: i32,
}

/// The component-wise sum of two points fits in `i32`.
pub open spec fn sum_fits(a: Point, b: Point) -> bool {
    &&& i32::MIN <= a.x + b.x <= i32::MAX
    &&& i32::MIN <= a.y + b.y <= i32::MAX
}

/// The component-wise difference of two points fits in `i32`.
pub open spec fn difference_fits(a: Point, b: Point) -> bool {
    &&& i32::MIN <= a.x - b.x <= i32::MAX
    &&& i32::MIN <= a.y - b.y <= i32::MAX
}

/// `a + b`, component by component.
pub open spec fn point_add(a: Point, b: Point) -> Point {
    Point { x: (a.x + b.x) as i32, y: (a.y + b.y) as i32 }
}

/// `a - b`, component by component.
pub open spec fn point_sub(a: Point, b: Point) -> Point {
    Point { x: (a.x - b.x) as i32, y: (a.y - b.y) as i32 }
}

impl Point {
    /// The origin `(0, 0)`.
    pub fn origin() -> (p: Point)
        ensures
            p == (Point { x: 0, y: 0 }),
    {
        Point { x: 0, y: 0 }
    }
}

impl Default for Point {
    fn default() -> (p: Point)
        ensures
            p == (Point { x: 0, y: 0 }),
    {
        Point { x: 0, y: 0 }
    }
}

impl std::ops::Add for Point {
    type Output = Point;

    fn add(self, other: Point) -> (sum: Point) {
        Point { x: self.x + other.x, y: self.y + other.y }
    }
}

impl vstd::std_specs::ops::AddSpecImpl for Point {
    open spec fn obeys_add_spec() -> bool {
        true
    }

    open spec fn add_req(self, rhs: Point) -> bool {
        sum_fits(self, rhs)
    }

    open spec fn add_spec(self, rhs: Point) -> Point {
        point_add(self, rhs)
    }
}

impl std::ops::Sub for Point {
    type Output = Point;

    fn sub(self, other: Point) -> (difference: Point) {
        Point { x: self.x - other.x, y: self.y - other.y }
    }
}

impl vstd::std_specs::ops::SubSpecImpl for Point {
    open spec fn obeys_sub_spec() -> bool {
        true
    }

    open spec fn sub_req(self, rhs: Point) -> bool {
        difference_fits(self, rhs)
    }

    open spec fn sub_spec(self, rhs: Point) -> Point {
        point_sub(self, rhs)
    }
}


} // verus!

verus! {

/// Adding points does not depend on their order.
pub proof fn lemma_add_commutative(a: Point, b: Point)
    ensures
        point_add(a, b) == point_add(b, a),
{
}

/// The origin adds and subtracts as zero.
pub proof fn lemma_origin_neutral(p: Point)
    ensures
        point_add(p, Point { x: 0, y: 0 }) == p,
        point_add(Point { x: 0, y: 0 }, p) == p,
        point_sub(p, Point { x: 0, y: 0 }) == p,
{
}

/// A point less itself is the origin.
pub proof fn lemma_sub_self(p: Point)
    ensures
        point_sub(p, p) == (Point { x: 0, y: 0 }),
{
}

/// Adding back what was subtracted restores the point.
pub proof fn lemma_sub_then_add(a: Point, b: Point)
    requires
        difference_fits(a, b),
    ensures
        sum_fits(point_sub(a, b), b),
        point_add(point_sub(a, b), b) == a,
{
}

} // verus!
