use vstd::prelude::*;

use crate::point::Point;

verus! {

/// Half of `v`, rounded towards zero as integer division in Rust does.
pub open spec fn half_toward_zero(v: int) -> int {
    if v >= 0 {
        v / 2
    } else {
        -((-v) / 2)
    }
}

/// The offset of `p` from the centre of an image of size `dimensions`,
/// along the x axis (`x_axis`) or along the y axis.
pub open spec fn offset_from_center(p: Point, dimensions: Point, x_axis: bool) -> int {
    if x_axis {
        p.x - half_toward_zero(dimensions.x as int)
    } else {
        p.y - half_toward_zero(dimensions.y as int)
    }
}

/// Every offset from the centre fits in `i32`.
pub open spec fn offsets_fit(points: Seq<Point>, dimensions: Point) -> bool {
    forall|i: int|
        #![trigger points[i]]
        0 <= i < points.len() ==> {
            &&& i32::MIN <= offset_from_center(points[i], dimensions, true) <= i32::MAX
            &&& i32::MIN <= offset_from_center(points[i], dimensions, false) <= i32::MAX
        }
}

/// How far each traced point lies from the centre of the image, along x and
/// along y: the two series that the x disk and the y disk are cut from.
/// Every point is used, in order; the centre is half of each side, rounded
/// towards zero.
pub fn disk_changes(points: &Vec<Point>, dimensions: &Point) -> (r: (Vec<i32>, Vec<i32>))
    requires
        offsets_fit(points@, *dimensions),
    ensures
        r.0@.len() == points@.len(),
        r.1@.len() == points@.len(),
        forall|i: int|
            0 <= i < points@.len() ==> #[trigger] r.0@[i] == offset_from_center(
                points@[i],
                *dimensions,
                true,
            ),
        forall|i: int|
            0 <= i < points@.len() ==> #[trigger] r.1@[i] == offset_from_center(
                points@[i],
                *dimensions,
                false,
            ),
        forall|i: int|
            0 <= i < points@.len() ==> {
                let mx = points@[i].x - #[trigger] r.0@[i];
                let my = points@[i].y - r.1@[i];
                &&& dimensions.x >= 0 ==> 0 <= dimensions.x - 2 * mx <= 1
                &&& dimensions.x < 0 ==> -1 <= dimensions.x - 2 * mx <= 0
                &&& dimensions.y >= 0 ==> 0 <= dimensions.y - 2 * my <= 1
                &&& dimensions.y < 0 ==> -1 <= dimensions.y - 2 * my <= 0
            },
{
    let middle_x = dimensions.x / 2;
    let middle_y = dimensions.y / 2;
    let mut changes_x: Vec<i32> = Vec::new();
    let mut changes_y: Vec<i32> = Vec::new();
    let mut i: usize = 0;
    while i < points.len()
        invariant
            offsets_fit(points@, *dimensions),
            middle_x == half_toward_zero(dimensions.x as int),
            middle_y == half_toward_zero(dimensions.y as int),
            i <= points@.len(),
            changes_x@.len() == i,
            changes_y@.len() == i,
            forall|j: int|
                0 <= j < i ==> #[trigger] changes_x@[j] == offset_from_center(
                    points@[j],
                    *dimensions,
                    true,
                ),
            forall|j: int|
                0 <= j < i ==> #[trigger] changes_y@[j] == offset_from_center(
                    points@[j],
                    *dimensions,
                    false,
                ),
        decreases points.len() - i,
    {
        let point = points[i];
        assert(i32::MIN <= offset_from_center(points@[i as int], *dimensions, true) <= i32::MAX);
        assert(i32::MIN <= offset_from_center(points@[i as int], *dimensions, false) <= i32::MAX);
        changes_x.push(point.x - middle_x);
        changes_y.push(point.y - middle_y);
        i = i + 1;
    }
    (changes_x, changes_y)
}

} // verus!
