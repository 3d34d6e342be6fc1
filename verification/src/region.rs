use vstd::prelude::*;

use crate::directions::{adjacent, default_direction_list, default_directions, lemma_default_directions_adjacent, lemma_direction_index};
use crate::error::TraceError;
use crate::image::{lemma_distinct_positions_bounded, Image, Pixel};
use crate::point::{point_add, Point};

verus! {

/// Stepping from `p` to its neighbour `q` stays on pixels of colour
/// `colour` inside the image.
pub open spec fn colour_step(img: Image, colour: Pixel, p: Point, q: Point) -> bool {
    &&& adjacent(p, q)
    &&& img.contains(q)
    &&& img.color(q) == colour
}

/// `path` walks from neighbour to neighbour, every step onto a pixel of
/// colour `colour`; its first position may have any colour.
pub open spec fn is_colour_path(img: Image, colour: Pixel, path: Seq<Point>) -> bool {
    &&& path.len() >= 1
    &&& forall|i: int| 0 < i < path.len() ==> colour_step(img, colour, path[i - 1], #[trigger] path[i])
}

/// `q` can be reached from `origin` by a colour path: the flood fill of
/// colour `colour` that starts at `origin`.
pub open spec fn in_region(img: Image, origin: Point, colour: Pixel, q: Point) -> bool {
    exists|path: Seq<Point>|
        #![trigger is_colour_path(img, colour, path)]
        is_colour_path(img, colour, path) && path[0] == origin && path.last() == q
}

/// The flood fill of colour `colour` from `origin`, as a set.
pub open spec fn region(img: Image, origin: Point, colour: Pixel) -> Set<Point> {
    Set::new(|q: Point| in_region(img, origin, colour, q))
}

/// All eight neighbours of `p` lie inside the image.
pub open spec fn all_neighbours_inside(img: Image, p: Point) -> bool {
    &&& 1 <= p.x
    &&& p.x + 1 < img.width()
    &&& 1 <= p.y
    &&& p.y + 1 < img.height()
}

/// Some position of the flood fill has a neighbour outside the image.
pub open spec fn region_escapes(img: Image, origin: Point, colour: Pixel) -> bool {
    exists|q: Point| #[trigger]
        in_region(img, origin, colour, q) && !all_neighbours_inside(img, q)
}

/// Every colour step out of `p` lands in `a` or in `b`.
pub open spec fn steps_covered(
    img: Image,
    colour: Pixel,
    p: Point,
    a: Seq<Point>,
    b: Seq<Point>,
) -> bool {
    forall|q: Point| #[trigger] colour_step(img, colour, p, q) ==> a.contains(q) || b.contains(q)
}

/// The start of a flood fill belongs to it.
pub proof fn lemma_origin_in_region(img: Image, origin: Point, colour: Pixel)
    ensures
        in_region(img, origin, colour, origin),
{
    let path = seq![origin];
    assert(is_colour_path(img, colour, path));
}

/// A colour step out of the flood fill stays in it.
pub proof fn lemma_region_step(img: Image, origin: Point, colour: Pixel, p: Point, q: Point)
    requires
        in_region(img, origin, colour, p),
        colour_step(img, colour, p, q),
    ensures
        in_region(img, origin, colour, q),
{
    let path = choose|path: Seq<Point>|
        #![trigger is_colour_path(img, colour, path)]
        is_colour_path(img, colour, path) && path[0] == origin && path.last() == p;
    let longer = path.push(q);
    assert forall|i: int| 0 < i < longer.len() implies colour_step(
        img,
        colour,
        longer[i - 1],
        #[trigger] longer[i],
    ) by {
        if i < path.len() {
            assert(path[i] == longer[i]);
        }
    }
    assert(is_colour_path(img, colour, longer));
}

/// A flood fill that starts inside the image stays inside it.
pub proof fn lemma_region_inside(img: Image, origin: Point, colour: Pixel, q: Point)
    requires
        img.contains(origin),
        in_region(img, origin, colour, q),
    ensures
        img.contains(q),
{
    let path = choose|path: Seq<Point>|
        #![trigger is_colour_path(img, colour, path)]
        is_colour_path(img, colour, path) && path[0] == origin && path.last() == q;
    if path.len() > 1 {
        let i = path.len() - 1;
        assert(colour_step(img, colour, path[i - 1], path[i]));
    }
}

/// Every position of a flood fill that starts on a pixel of its colour
/// inside the image is a pixel of that colour inside the image.
pub proof fn lemma_region_colour(img: Image, origin: Point, colour: Pixel, q: Point)
    requires
        img.contains(origin),
        img.color(origin) == colour,
        in_region(img, origin, colour, q),
    ensures
        img.contains(q),
        img.color(q) == colour,
{
    let path = choose|path: Seq<Point>|
        #![trigger is_colour_path(img, colour, path)]
        is_colour_path(img, colour, path) && path[0] == origin && path.last() == q;
    if path.len() > 1 {
        let i = path.len() - 1;
        assert(colour_step(img, colour, path[i - 1], path[i]));
    }
}

/// Walking a colour path backwards from its end stays in any flood fill
/// that holds the end, when the path starts on a pixel of the colour.
proof fn lemma_back_along(img: Image, a: Point, colour: Pixel, path: Seq<Point>, i: int)
    requires
        is_colour_path(img, colour, path),
        img.contains(path[0]),
        img.color(path[0]) == colour,
        in_region(img, a, colour, path.last()),
        0 <= i < path.len(),
    ensures
        in_region(img, a, colour, path[i]),
    decreases path.len() - i,
{
    if i < path.len() - 1 {
        lemma_back_along(img, a, colour, path, i + 1);
        assert(colour_step(img, colour, path[i], path[i + 1]));
        if i > 0 {
            assert(colour_step(img, colour, path[i - 1], path[i]));
        }
        assert(colour_step(img, colour, path[i + 1], path[i]));
        lemma_region_step(img, a, colour, path[i + 1], path[i]);
    }
}

/// Flood fills of one colour that meet are the same fill: when `m` is
/// reached from `a` and from `b`, and `b` is a pixel of the colour, `b` is
/// reached from `a`.
pub proof fn lemma_regions_meet(img: Image, a: Point, b: Point, colour: Pixel, m: Point)
    requires
        in_region(img, a, colour, m),
        in_region(img, b, colour, m),
        img.contains(b),
        img.color(b) == colour,
    ensures
        in_region(img, a, colour, b),
{
    let path = choose|path: Seq<Point>|
        #![trigger is_colour_path(img, colour, path)]
        is_colour_path(img, colour, path) && path[0] == b && path.last() == m;
    lemma_back_along(img, a, colour, path, 0);
}

/// Positions along a colour path from `s`'s member `path[0]` stay in `s`
/// when `s` is closed under colour steps.
proof fn lemma_path_stays(img: Image, colour: Pixel, s: Seq<Point>, path: Seq<Point>, i: int)
    requires
        is_colour_path(img, colour, path),
        s.contains(path[0]),
        forall|p: Point| #[trigger] s.contains(p) ==> steps_covered(img, colour, p, s, Seq::empty()),
        0 <= i < path.len(),
    ensures
        s.contains(path[i]),
    decreases i,
{
    if i > 0 {
        lemma_path_stays(img, colour, s, path, i - 1);
        assert(colour_step(img, colour, path[i - 1], path[i]));
        assert(steps_covered(img, colour, path[i - 1], s, Seq::empty()));
        assert(Seq::<Point>::empty().contains(path[i]) == false);
    }
}

/// A collection that holds `origin` and is closed under colour steps holds
/// the whole flood fill.
pub proof fn lemma_closed_holds_region(
    img: Image,
    origin: Point,
    colour: Pixel,
    s: Seq<Point>,
    q: Point,
)
    requires
        s.contains(origin),
        forall|p: Point| #[trigger] s.contains(p) ==> steps_covered(img, colour, p, s, Seq::empty()),
        in_region(img, origin, colour, q),
    ensures
        s.contains(q),
{
    let path = choose|path: Seq<Point>|
        #![trigger is_colour_path(img, colour, path)]
        is_colour_path(img, colour, path) && path[0] == origin && path.last() == q;
    lemma_path_stays(img, colour, s, path, path.len() - 1);
}

/// Whether `v` holds `p`.
pub fn contains_point(v: &Vec<Point>, p: &Point) -> (b: bool)
    ensures
        b == v@.contains(*p),
{
    let mut i: usize = 0;
    while i < v.len()
        invariant
            i <= v.len(),
            forall|j: int| 0 <= j < i ==> v@[j] != *p,
        decreases v.len() - i,
    {
        if v[i] == *p {
            return true;
        }
        i = i + 1;
    }
    false
}

} // verus!

verus! {

/// Pushing `v` adds exactly `v`.
pub proof fn lemma_push_contains<A>(s: Seq<A>, v: A)
    ensures
        forall|x: A| #[trigger] s.push(v).contains(x) <==> s.contains(x) || x == v,
{
    assert forall|x: A| #[trigger] s.push(v).contains(x) <==> s.contains(x) || x == v by {
        vstd::seq_lib::lemma_seq_contains_after_push(s, v, x);
    }
}

/// Dropping the last element removes at most that element.
pub proof fn lemma_drop_last_contains<A>(s: Seq<A>)
    requires
        s.len() > 0,
    ensures
        forall|x: A| #[trigger] s.contains(x) <==> s.drop_last().contains(x) || x == s.last(),
{
    assert(s.drop_last().push(s.last()) =~= s);
    lemma_push_contains(s.drop_last(), s.last());
}

/// Pushes onto `neighbors` each neighbour of `next` that has colour
/// `pixel`, trying them in the default order; fails as soon as a neighbour
/// lies outside the image.
fn push_colour_neighbours(
    img: &Image,
    pixel: &Pixel,
    next: Point,
    dirs: &Vec<Point>,
    neighbors: &mut Vec<Point>,
) -> (r: Result<(), TraceError>)
    requires
        img.wf(),
        img.contains(next),
        dirs@ == default_directions(),
    ensures
        r is Ok <==> all_neighbours_inside(*img, next),
        r matches Err(e) ==> e == TraceError::OutOfBounds,
        r is Ok ==> forall|q: Point| #[trigger]
            final(neighbors)@.contains(q) <==> old(neighbors)@.contains(q) || colour_step(
                *img,
                *pixel,
                next,
                q,
            ),
{
    let ghost before = neighbors@;
    let mut i: usize = 0;
    while i < 8
        invariant
            img.wf(),
            img.contains(next),
            dirs@ == default_directions(),
            i <= 8,
            forall|q: Point| #[trigger]
                neighbors@.contains(q) ==> before.contains(q) || colour_step(*img, *pixel, next, q),
            forall|q: Point| #[trigger] before.contains(q) ==> neighbors@.contains(q),
            forall|j: int| 0 <= j < i ==> img.contains(point_add(#[trigger] dirs@[j], next)),
            forall|j: int|
                0 <= j < i && #[trigger] colour_step(*img, *pixel, next, point_add(dirs@[j], next))
                    ==> neighbors@.contains(point_add(dirs@[j], next)),
        decreases 8 - i,
    {
        proof {
            lemma_default_directions_adjacent(next, i as int);
        }
        let moved = dirs[i] + next;
        match img.get_pixel(moved) {
            None => {
                return Err(TraceError::OutOfBounds);
            },
            Some(moved_pixel) => {
                if moved_pixel == *pixel {
                    proof {
                        lemma_push_contains(neighbors@, moved);
                    }
                    neighbors.push(moved);
                }
            },
        }
        i = i + 1;
    }
    proof {
        assert forall|q: Point| #[trigger]
            colour_step(*img, *pixel, next, q) implies neighbors@.contains(q) by {
            let j = lemma_direction_index(next, q);
        }
        let a = point_add(dirs@[0], next);
        let b = point_add(dirs@[7], next);
        let c = point_add(dirs@[2], next);
        let d = point_add(dirs@[4], next);
        assert(img.contains(a));
        assert(img.contains(b));
        assert(img.contains(c));
        assert(img.contains(d));
    }
    Ok(())
}

/// The flood fill of colour `pixel` from `origin_point`: `origin_point` and
/// every pixel of that colour reachable from it through neighbours of that
/// colour. Fails when some position of the fill has a neighbour outside the
/// image, because each position's neighbours are all looked at.
pub fn try_points_of_color(origin_point: &Point, pixel: &Pixel, img: &Image) -> (r: Result<
    Vec<Point>,
    TraceError,
>)
    requires
        img.wf(),
        img.contains(*origin_point),
    ensures
        r is Err <==> region_escapes(*img, *origin_point, *pixel),
        r matches Err(e) ==> e == TraceError::OutOfBounds,
        r matches Ok(v) ==> {
            &&& v@.no_duplicates()
            &&& forall|q: Point| v@.contains(q) <==> in_region(*img, *origin_point, *pixel, q)
        },
{
    let ghost origin = *origin_point;
    let ghost colour = *pixel;
    let ghost n = img.width() * img.height();
    let dirs = default_direction_list();
    let mut points: Vec<Point> = Vec::new();
    let mut neighbors: Vec<Point> = Vec::new();
    proof {
        lemma_push_contains(neighbors@, origin);
        lemma_origin_in_region(*img, origin, colour);
    }
    neighbors.push(*origin_point);
    while neighbors.len() > 0
        invariant
            img.wf(),
            img.contains(origin),
            origin == *origin_point,
            colour == *pixel,
            n == img.width() * img.height(),
            dirs@ == default_directions(),
            points@.no_duplicates(),
            points@.len() <= n,
            points@.contains(origin) || neighbors@.contains(origin),
            forall|q: Point| #[trigger]
                points@.contains(q) ==> in_region(*img, origin, colour, q),
            forall|q: Point| #[trigger]
                neighbors@.contains(q) ==> in_region(*img, origin, colour, q),
            forall|p: Point| #[trigger]
                points@.contains(p) ==> all_neighbours_inside(*img, p) && steps_covered(
                    *img,
                    colour,
                    p,
                    points@,
                    neighbors@,
                ),
        decreases n - points@.len(), neighbors@.len(),
    {
        let ghost before = neighbors@;
        let ghost before_points = points@;
        proof {
            lemma_drop_last_contains(before);
        }
        let next = neighbors.pop().unwrap();
        assert(before.contains(next)) by {
            assert(before[before.len() - 1] == next);
        }
        proof {
            lemma_region_inside(*img, origin, colour, next);
        }
        if !contains_point(&points, &next) {
            let ghost popped = neighbors@;
            match push_colour_neighbours(img, pixel, next, &dirs, &mut neighbors) {
                Err(e) => {
                    assert(region_escapes(*img, origin, colour));
                    return Err(e);
                },
                Ok(()) => {},
            }
            proof {
                lemma_push_contains(points@, next);
                assert forall|q: Point| #[trigger]
                    neighbors@.contains(q) implies in_region(*img, origin, colour, q) by {
                    if !popped.contains(q) {
                        lemma_region_step(*img, origin, colour, next, q);
                    } else {
                        assert(popped =~= before.drop_last());
                        assert(before.contains(q));
                    }
                }
            }
            points.push(next);
            proof {
                assert forall|p: Point| #[trigger] points@.contains(p) implies all_neighbours_inside(
                    *img,
                    p,
                ) && steps_covered(*img, colour, p, points@, neighbors@) by {
                    if p != next {
                        assert(before_points.contains(p));
                        assert forall|q: Point| #[trigger]
                            colour_step(*img, colour, p, q) implies points@.contains(q)
                            || neighbors@.contains(q) by {
                            assert(steps_covered(*img, colour, p, before_points, before));
                        }
                    }
                }
                assert forall|i: int| 0 <= i < points@.len() implies img.contains(
                    #[trigger] points@[i],
                ) by {
                    assert(points@.contains(points@[i]));
                    lemma_region_inside(*img, origin, colour, points@[i]);
                }
                lemma_distinct_positions_bounded(*img, points@);
            }
        } else {
            proof {
                assert forall|q: Point| #[trigger]
                    neighbors@.contains(q) implies in_region(*img, origin, colour, q) by {
                    assert(neighbors@ =~= before.drop_last());
                    assert(before.contains(q));
                }
                assert forall|p: Point| #[trigger] points@.contains(p) implies steps_covered(
                    *img,
                    colour,
                    p,
                    points@,
                    neighbors@,
                ) by {
                    assert forall|q: Point| #[trigger]
                        colour_step(*img, colour, p, q) implies points@.contains(q)
                        || neighbors@.contains(q) by {
                        assert(steps_covered(*img, colour, p, before_points, before));
                    }
                }
            }
        }
    }
    proof {
        assert forall|q: Point| in_region(*img, origin, colour, q) implies points@.contains(q) by {
            assert forall|p: Point| #[trigger] points@.contains(p) implies steps_covered(
                *img,
                colour,
                p,
                points@,
                Seq::empty(),
            ) by {
                assert forall|q2: Point| #[trigger]
                    colour_step(*img, colour, p, q2) implies points@.contains(q2)
                    || Seq::<Point>::empty().contains(q2) by {
                    assert(steps_covered(*img, colour, p, points@, neighbors@));
                    assert(neighbors@ =~= Seq::<Point>::empty());
                }
            }
            lemma_closed_holds_region(*img, origin, colour, points@, q);
        }
        if region_escapes(*img, origin, colour) {
            let q = choose|q: Point| #[trigger]
                in_region(*img, origin, colour, q) && !all_neighbours_inside(*img, q);
            assert(points@.contains(q));
        }
    }
    Ok(points)
}


/// The flood fill of colour `pixel` from `origin_point` (see
/// [`try_points_of_color`]), for a fill whose positions all have their eight
/// neighbours inside the image.
pub fn get_points_of_color(origin_point: &Point, pixel: &Pixel, img: &Image) -> (v: Vec<Point>)
    requires
        img.wf(),
        img.contains(*origin_point),
        !region_escapes(*img, *origin_point, *pixel),
    ensures
        v@.no_duplicates(),
        forall|q: Point| v@.contains(q) <==> in_region(*img, *origin_point, *pixel, q),
{
    match try_points_of_color(origin_point, pixel, img) {
        Ok(v) => v,
        Err(_) => Vec::new(),
    }
}

} // verus!
