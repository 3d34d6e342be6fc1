use vstd::prelude::*;

use crate::point::Point;

verus! {

/// The points as the plotting library draws them: the y axis turned
/// upwards inside a canvas `height` pixels high.
pub fn plot_coordinates(points: &Vec<Point>, height: i32) -> (r: Vec<(i32, i32)>)
    requires
        forall|i: int|
            0 <= i < points@.len() ==> i32::MIN <= height - (#[trigger] points@[i]).y <= i32::MAX,
    ensures
        r@.len() == points@.len(),
        forall|i: int|
            0 <= i < points@.len() ==> #[trigger] r@[i] == (points@[i].x, (height - points@[i].y) as i32),
{
    let mut list: Vec<(i32, i32)> = Vec::new();
    let mut i: usize = 0;
    while i < points.len()
        invariant
            forall|j: int|
                0 <= j < points@.len() ==> i32::MIN <= height - (#[trigger] points@[j]).y <= i32::MAX,
            i <= points@.len(),
            list@.len() == i,
            forall|j: int|
                0 <= j < i ==> #[trigger] list@[j] == (points@[j].x, (height - points@[j].y) as i32),
        decreases points.len() - i,
    {
        let p = points[i];
        assert(i32::MIN <= height - points@[i as int].y <= i32::MAX);
        list.push((p.x, height - p.y));
        i = i + 1;
    }
    list
}

} // verus!
