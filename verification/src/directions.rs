use vstd::prelude::*;

use crate::point::{difference_fits, point_sub, Point};

verus! {

/// One pixel to the right.
#[verifier::allow_in_spec]
pub fn right() -> Point
    returns
        (Point { x: 1i32, y: 0i32 }),
{
    Point { x: 1, y: 0 }
}

/// One pixel right and one down.
#[verifier::allow_in_spec]
pub fn right_top() -> Point
    returns
        (Point { x: 1i32, y: 1i32 }),
{
    Point { x: 1, y: 1 }
}

/// One pixel right and one up.
#[verifier::allow_in_spec]
pub fn right_bottom() -> Point
    returns
        (Point { x: 1i32, y: -1i32 }),
{
    Point { x: 1, y: -1 }
}

/// One pixel to the left.
#[verifier::allow_in_spec]
pub fn left() -> Point
    returns
        (Point { x: -1i32, y: 0i32 }),
{
    Point { x: -1, y: 0 }
}

/// One pixel left and one down.
#[verifier::allow_in_spec]
pub fn left_top() -> Point
    returns
        (Point { x: -1i32, y: 1i32 }),
{
    Point { x: -1, y: 1 }
}

/// One pixel left and one up.
#[verifier::allow_in_spec]
pub fn left_bottom() -> Point
    returns
        (Point { x: -1i32, y: -1i32 }),
{
    Point { x: -1, y: -1 }
}

/// One pixel down (rows grow downwards).
#[verifier::allow_in_spec]
pub fn top() -> Point
    returns
        (Point { x: 0i32, y: 1i32 }),
{
    Point { x: 0, y: 1 }
}

/// One pixel up.
#[verifier::allow_in_spec]
pub fn bottom() -> Point
    returns
        (Point { x: 0i32, y: -1i32 }),
{
    Point { x: 0, y: -1 }
}

/// No move at all.
#[verifier::allow_in_spec]
pub fn center() -> Point
    returns
        (Point { x: 0i32, y: 0i32 }),
{
    Point { x: 0, y: 0 }
}

} // verus!

verus! {

/// The eight neighbours of a pixel, in the order in which the tracer tries
/// them when it has no preferred heading.
pub open spec fn default_directions() -> Seq<Point> {
    seq![right(), right_top(), top(), right_bottom(), bottom(), left_bottom(), left_top(), left()]
}

/// Returns [`default_directions`] as a vector.
pub fn default_direction_list() -> (v: Vec<Point>)
    ensures
        v@ == default_directions(),
{
    vec![right(), right_top(), top(), right_bottom(), bottom(), left_bottom(), left_top(), left()]
}

/// The order in which the eight neighbours are tried after a step `step`:
/// the step itself first, then its closest turns, the reversal last. For a
/// zero step it is the default order; a step that is not between neighbours
/// has no preference (the empty sequence).
pub open spec fn preferred_directions(step: Point) -> Seq<Point> {
    if step == center() {
        default_directions()
    } else if step == right() {
        seq![right(), right_top(), right_bottom(), top(), bottom(), left_top(), left_bottom(), left()]
    } else if step == right_top() {
        seq![right_top(), right(), top(), right_bottom(), left_top(), bottom(), left(), left_bottom()]
    } else if step == right_bottom() {
        seq![right_bottom(), right(), bottom(), right_top(), left_bottom(), left(), top(), left_top()]
    } else if step == left() {
        seq![left(), left_top(), left_bottom(), top(), bottom(), right_top(), right_bottom(), right()]
    } else if step == left_top() {
        seq![left_top(), top(), left(), right_top(), left_bottom(), right(), bottom(), right_bottom()]
    } else if step == left_bottom() {
        seq![left_bottom(), bottom(), left(), left_top(), right_bottom(), right(), top(), right_top()]
    } else if step == top() {
        seq![top(), right_top(), left_top(), left(), right(), left_bottom(), right_bottom(), bottom()]
    } else if step == bottom() {
        seq![bottom(), left_bottom(), right_bottom(), left(), right(), left_top(), right_top(), top()]
    } else {
        Seq::empty()
    }
}

/// The order in which to try the neighbours after moving from `from` to
/// `to`, keeping the heading where possible; `None` when `to` is not `from`
/// or one of its eight neighbours.
pub fn next_directions(from: &Point, to: &Point) -> (r: Option<Vec<Point>>)
    requires
        difference_fits(*to, *from),
    ensures
        match r {
            Some(v) => v@ == preferred_directions(point_sub(*to, *from)) && v@.len() > 0,
            None => preferred_directions(point_sub(*to, *from)).len() == 0,
        },
{
    let point = *to - *from;
    let direction = if point == center() {
        vec![right(), right_top(), top(), right_bottom(), bottom(), left_bottom(), left_top(), left()]
    } else if point == right() {
        vec![right(), right_top(), right_bottom(), top(), bottom(), left_top(), left_bottom(), left()]
    } else if point == right_top() {
        vec![right_top(), right(), top(), right_bottom(), left_top(), bottom(), left(), left_bottom()]
    } else if point == right_bottom() {
        vec![right_bottom(), right(), bottom(), right_top(), left_bottom(), left(), top(), left_top()]
    } else if point == left() {
        vec![left(), left_top(), left_bottom(), top(), bottom(), right_top(), right_bottom(), right()]
    } else if point == left_top() {
        vec![left_top(), top(), left(), right_top(), left_bottom(), right(), bottom(), right_bottom()]
    } else if point == left_bottom() {
        vec![left_bottom(), bottom(), left(), left_top(), right_bottom(), right(), top(), right_top()]
    } else if point == top() {
        vec![top(), right_top(), left_top(), left(), right(), left_bottom(), right_bottom(), bottom()]
    } else if point == bottom() {
        vec![bottom(), left_bottom(), right_bottom(), left(), right(), left_top(), right_top(), top()]
    } else {
        Vec::new()
    };
    if !direction.is_empty() {
        Some(direction)
    } else {
        None
    }
}

/// `|v|` for a value whose negation fits in `i32`.
fn abs_i32(v: i32) -> (a: i32)
    requires
        v > i32::MIN,
    ensures
        a == vstd::math::abs(v as int),
{
    if v < 0 {
        -v
    } else {
        v
    }
}

/// Whether `current` is close enough to `start` for the trace to count as
/// closed: fewer than 10 pixels apart horizontally and fewer than 5
/// vertically.
pub open spec fn near_start(current: Point, start: Point) -> bool {
    vstd::math::abs(current.x - start.x) < 10 && vstd::math::abs(current.y - start.y) < 5
}

/// Whether the tracer is back near its starting point (see [`near_start`]).
pub fn at_the_start(current: &Point, start: &Point) -> (b: bool)
    requires
        difference_fits(*current, *start),
        current.x - start.x > i32::MIN,
        current.y - start.y > i32::MIN,
    ensures
        b == near_start(*current, *start),
{
    let point = *current - *start;
    abs_i32(point.x) < 10 && abs_i32(point.y) < 5
}

} // verus!

verus! {

/// `q` is one of the eight neighbours of `p`.
pub open spec fn adjacent(p: Point, q: Point) -> bool {
    &&& -1 <= q.x - p.x <= 1
    &&& -1 <= q.y - p.y <= 1
    &&& (q.x != p.x || q.y != p.y)
}

/// `d` moves by at most one pixel along each axis.
pub open spec fn is_unit_step(d: Point) -> bool {
    -1 <= d.x <= 1 && -1 <= d.y <= 1
}

/// Every neighbour of `p` is `p` moved by one of the default directions.
pub proof fn lemma_direction_index(p: Point, q: Point) -> (j: int)
    requires
        adjacent(p, q),
    ensures
        0 <= j < 8,
        crate::point::point_add(default_directions()[j], p) == q,
{
    let dx = q.x - p.x;
    let dy = q.y - p.y;
    if dx == 1 && dy == 0 {
        0
    } else if dx == 1 && dy == 1 {
        1
    } else if dx == 0 && dy == 1 {
        2
    } else if dx == 1 && dy == -1 {
        3
    } else if dx == 0 && dy == -1 {
        4
    } else if dx == -1 && dy == -1 {
        5
    } else if dx == -1 && dy == 1 {
        6
    } else {
        7
    }
}

/// Each default direction leads to a neighbour.
pub proof fn lemma_default_directions_adjacent(p: Point, j: int)
    requires
        0 <= j < 8,
        crate::point::sum_fits(default_directions()[j], p),
    ensures
        adjacent(p, crate::point::point_add(default_directions()[j], p)),
        is_unit_step(default_directions()[j]),
{
}

} // verus!

verus! {

/// Every direction the tracer may be told to try moves by one pixel at
/// most.
pub proof fn lemma_preferred_unit_steps(step: Point)
    ensures
        forall|i: int|
            0 <= i < preferred_directions(step).len() ==> is_unit_step(
                #[trigger] preferred_directions(step)[i],
            ),
        forall|i: int| 0 <= i < default_directions().len() ==> is_unit_step(
            #[trigger] default_directions()[i],
        ),
{
}

} // verus!

verus! {

/// The eight default directions.
pub open spec fn is_direction(d: Point) -> bool {
    is_unit_step(d) && d != (Point { x: 0, y: 0 })
}

/// After a move between neighbours the tracer first tries to keep going
/// the same way, and tries going straight back last.
pub proof fn lemma_heading_kept(step: Point)
    requires
        is_direction(step),
    ensures
        preferred_directions(step).len() == 8,
        preferred_directions(step)[0] == step,
        preferred_directions(step)[7] == (Point { x: -step.x as i32, y: -step.y as i32 }),
{
}

/// There is a preference exactly when the move is between neighbours or
/// no move at all.
pub proof fn lemma_preference_exists(step: Point)
    ensures
        preferred_directions(step).len() > 0 <==> is_unit_step(step),
{
}

/// Each preference tries all eight neighbours, each once.
pub proof fn lemma_preference_is_permutation(step: Point)
    requires
        is_unit_step(step),
    ensures
        preferred_directions(step).len() == 8,
        preferred_directions(step).no_duplicates(),
        forall|d: Point| #[trigger]
            preferred_directions(step).contains(d) <==> is_direction(d),
{
    let s = preferred_directions(step);
    assert forall|d: Point| #[trigger] s.contains(d) <==> is_direction(d) by {
        if is_direction(d) {
            let j = lemma_direction_index(Point { x: 0, y: 0 }, d);
            let dd = default_directions()[j];
            assert(dd == d);
            if step == center() {
                assert(s[j] == d);
            } else if step == right() {
                let k = if j == 0 { 0 } else if j == 1 { 1 } else if j == 2 { 3 } else if j == 3 { 2 } else if j == 4 { 4 } else if j == 5 { 6 } else if j == 6 { 5 } else { 7int };
                assert(s[k] == d);
            } else if step == right_top() {
                let k = if j == 0 { 1 } else if j == 1 { 0 } else if j == 2 { 2 } else if j == 3 { 3 } else if j == 4 { 5 } else if j == 5 { 7 } else if j == 6 { 4 } else { 6int };
                assert(s[k] == d);
            } else if step == right_bottom() {
                let k = if j == 0 { 1 } else if j == 1 { 3 } else if j == 2 { 6 } else if j == 3 { 0 } else if j == 4 { 2 } else if j == 5 { 4 } else if j == 6 { 7 } else { 5int };
                assert(s[k] == d);
            } else if step == left() {
                let k = if j == 0 { 7 } else if j == 1 { 5 } else if j == 2 { 3 } else if j == 3 { 6 } else if j == 4 { 4 } else if j == 5 { 2 } else if j == 6 { 1 } else { 0int };
                assert(s[k] == d);
            } else if step == left_top() {
                let k = if j == 0 { 5 } else if j == 1 { 3 } else if j == 2 { 1 } else if j == 3 { 7 } else if j == 4 { 6 } else if j == 5 { 4 } else if j == 6 { 0 } else { 2int };
                assert(s[k] == d);
            } else if step == left_bottom() {
                let k = if j == 0 { 5 } else if j == 1 { 7 } else if j == 2 { 6 } else if j == 3 { 4 } else if j == 4 { 1 } else if j == 5 { 0 } else if j == 6 { 3 } else { 2int };
                assert(s[k] == d);
            } else if step == top() {
                let k = if j == 0 { 4 } else if j == 1 { 1 } else if j == 2 { 0 } else if j == 3 { 6 } else if j == 4 { 7 } else if j == 5 { 5 } else if j == 6 { 2 } else { 3int };
                assert(s[k] == d);
            } else {
                let k = if j == 0 { 4 } else if j == 1 { 6 } else if j == 2 { 7 } else if j == 3 { 2 } else if j == 4 { 0 } else if j == 5 { 1 } else if j == 6 { 5 } else { 3int };
                assert(s[k] == d);
            }
        }
    }
}

/// Being back near the start does not depend on which point is called the
/// start.
pub proof fn lemma_near_start_symmetric(a: Point, b: Point)
    ensures
        near_start(a, b) == near_start(b, a),
{
}

} // verus!

verus! {

/// The point `(x, y)`.
pub open spec fn pt(x: int, y: int) -> Point {
    Point { x: x as i32, y: y as i32 }
}

/// The neighbour orders, written out by coordinates (`x` to the right, `y`
/// towards the top): after each step the step itself comes first, then the
/// two turns by 45 degrees, the two right-angle turns and the two turns by
/// 135 degrees, each pair in the order below, and the way back last; a zero
/// step keeps the default order.
pub proof fn lemma_preference_table()
    ensures
        preferred_directions(pt(0, 0)) =~= seq![
            pt(1, 0), pt(1, 1), pt(0, 1), pt(1, -1),
            pt(0, -1), pt(-1, -1), pt(-1, 1), pt(-1, 0),
        ],
        preferred_directions(pt(1, 0)) =~= seq![
            pt(1, 0), pt(1, 1), pt(1, -1), pt(0, 1),
            pt(0, -1), pt(-1, 1), pt(-1, -1), pt(-1, 0),
        ],
        preferred_directions(pt(1, 1)) =~= seq![
            pt(1, 1), pt(1, 0), pt(0, 1), pt(1, -1),
            pt(-1, 1), pt(0, -1), pt(-1, 0), pt(-1, -1),
        ],
        preferred_directions(pt(1, -1)) =~= seq![
            pt(1, -1), pt(1, 0), pt(0, -1), pt(1, 1),
            pt(-1, -1), pt(-1, 0), pt(0, 1), pt(-1, 1),
        ],
        preferred_directions(pt(-1, 0)) =~= seq![
            pt(-1, 0), pt(-1, 1), pt(-1, -1), pt(0, 1),
            pt(0, -1), pt(1, 1), pt(1, -1), pt(1, 0),
        ],
        preferred_directions(pt(-1, 1)) =~= seq![
            pt(-1, 1), pt(0, 1), pt(-1, 0), pt(1, 1),
            pt(-1, -1), pt(1, 0), pt(0, -1), pt(1, -1),
        ],
        preferred_directions(pt(-1, -1)) =~= seq![
            pt(-1, -1), pt(0, -1), pt(-1, 0), pt(-1, 1),
            pt(1, -1), pt(1, 0), pt(0, 1), pt(1, 1),
        ],
        preferred_directions(pt(0, 1)) =~= seq![
            pt(0, 1), pt(1, 1), pt(-1, 1), pt(-1, 0),
            pt(1, 0), pt(-1, -1), pt(1, -1), pt(0, -1),
        ],
        preferred_directions(pt(0, -1)) =~= seq![
            pt(0, -1), pt(-1, -1), pt(1, -1), pt(-1, 0),
            pt(1, 0), pt(-1, 1), pt(1, 1), pt(0, 1),
        ],
{
}

/// After a step between neighbours the order tries the neighbours by how
/// far they turn away from the step: entries 1 and 2 turn by 45 degrees,
/// entries 3 and 4 by a right angle and entries 5 and 6 by 135 degrees (the
/// dot product of the step and the neighbour falls accordingly).
pub proof fn lemma_preference_by_turn(step: Point)
    requires
        is_direction(step),
    ensures
        forall|k: int|
            0 <= k < 8 ==> #[trigger] turn_rank(step, preferred_directions(step)[k]) == (k + 1) / 2,
{
    lemma_preference_table();
    assert forall|k: int| 0 <= k < 8 implies #[trigger] turn_rank(step, preferred_directions(step)[k])
        == (k + 1) / 2 by {
            if step.x == 1 && step.y == 0 {
                assert(step == pt(1, 0));
            } else if step.x == 1 && step.y == 1 {
                assert(step == pt(1, 1));
            } else if step.x == 1 && step.y == -1 {
                assert(step == pt(1, -1));
            } else if step.x == -1 && step.y == 0 {
                assert(step == pt(-1, 0));
            } else if step.x == -1 && step.y == 1 {
                assert(step == pt(-1, 1));
            } else if step.x == -1 && step.y == -1 {
                assert(step == pt(-1, -1));
            } else if step.x == 0 && step.y == 1 {
                assert(step == pt(0, 1));
            } else if step.x == 0 && step.y == -1 {
                assert(step == pt(0, -1));
            }
    }
}

/// How far `d` turns away from the step `s` between neighbours, in eighths
/// of a full turn: 0 for the same direction up to 4 for the opposite one.
pub open spec fn turn_rank(s: Point, d: Point) -> int {
    let dot = s.x * d.x + s.y * d.y;
    let diagonal_s = s.x != 0 && s.y != 0;
    let diagonal_d = d.x != 0 && d.y != 0;
    if d == s {
        0
    } else if d.x == -s.x && d.y == -s.y {
        4
    } else if diagonal_s == diagonal_d {
        2
    } else if dot > 0 {
        1
    } else {
        3
    }
}

} // verus!
