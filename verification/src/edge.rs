use vstd::prelude::*;

use crate::directions::{
    adjacent, default_direction_list, default_directions, lemma_default_directions_adjacent,
    lemma_direction_index,
};
use crate::error::TraceError;
use crate::image::{black_pixel, is_black, lemma_distinct_positions_bounded, Image, Pixel};
use crate::point::{point_add, Point};
use crate::region::{
    all_neighbours_inside, colour_step, contains_point, in_region, lemma_closed_holds_region,
    lemma_drop_last_contains, lemma_origin_in_region, lemma_push_contains, lemma_region_inside,
    lemma_region_step, region_escapes, steps_covered,
};

verus! {

/// How many times `p` occurs in `s`.
pub open spec fn count_in(s: Seq<Point>, p: Point) -> nat
    decreases s.len(),
{
    if s.len() == 0 {
        0
    } else {
        count_in(s.drop_last(), p) + if s.last() == p {
            1nat
        } else {
            0nat
        }
    }
}

/// How many members of `s` are neighbours of `p`.
pub open spec fn adj_count(s: Seq<Point>, p: Point) -> nat
    decreases s.len(),
{
    if s.len() == 0 {
        0
    } else {
        adj_count(s.drop_last(), p) + if adjacent(s.last(), p) {
            1nat
        } else {
            0nat
        }
    }
}

/// Counting after a push.
pub proof fn lemma_counts_after_push(s: Seq<Point>, x: Point)
    ensures
        forall|p: Point| #[trigger]
            count_in(s.push(x), p) == count_in(s, p) + if x == p {
                1nat
            } else {
                0nat
            },
        forall|p: Point| #[trigger]
            adj_count(s.push(x), p) == adj_count(s, p) + if adjacent(x, p) {
                1nat
            } else {
                0nat
            },
{
    assert(s.push(x).drop_last() =~= s);
}

/// A point is counted exactly when it occurs.
pub proof fn lemma_count_contains(s: Seq<Point>, p: Point)
    ensures
        count_in(s, p) > 0 <==> s.contains(p),
    decreases s.len(),
{
    if s.len() > 0 {
        lemma_count_contains(s.drop_last(), p);
        lemma_drop_last_contains(s);
    }
}

/// Some member of `s` is a neighbour of `p` exactly when the neighbour
/// count is positive.
pub proof fn lemma_adj_count_one(s: Seq<Point>, p: Point)
    ensures
        adj_count(s, p) >= 1 <==> exists|p1: Point| #[trigger] s.contains(p1) && adjacent(p1, p),
    decreases s.len(),
{
    if s.len() > 0 {
        let t = s.drop_last();
        lemma_adj_count_one(t, p);
        lemma_drop_last_contains(s);
        if adj_count(s, p) >= 1 {
            if adjacent(s.last(), p) {
                assert(s.contains(s.last()));
            } else {
                let p1 = choose|p1: Point| #[trigger] t.contains(p1) && adjacent(p1, p);
                assert(s.contains(p1));
            }
        }
    }
}

/// Two distinct members of a sequence without repeats are neighbours of
/// `p` exactly when the neighbour count is at least two.
pub proof fn lemma_adj_count_two(s: Seq<Point>, p: Point)
    requires
        s.no_duplicates(),
    ensures
        adj_count(s, p) >= 2 <==> exists|p1: Point, p2: Point|
            #![trigger s.contains(p1), s.contains(p2)]
            p1 != p2 && s.contains(p1) && s.contains(p2) && adjacent(p1, p) && adjacent(p2, p),
    decreases s.len(),
{
    if s.len() > 0 {
        let t = s.drop_last();
        let x = s.last();
        assert(t.no_duplicates());
        assert(!t.contains(x)) by {
            if t.contains(x) {
                let i = choose|i: int| 0 <= i < t.len() && t[i] == x;
                assert(s[i] == s[s.len() - 1]);
            }
        }
        lemma_adj_count_two(t, p);
        lemma_adj_count_one(t, p);
        lemma_drop_last_contains(s);
        if adj_count(s, p) >= 2 {
            if adj_count(t, p) >= 2 {
                let (p1, p2) = choose|p1: Point, p2: Point|
                    #![trigger t.contains(p1), t.contains(p2)]
                    p1 != p2 && t.contains(p1) && t.contains(p2) && adjacent(p1, p) && adjacent(
                        p2,
                        p,
                    );
                assert(s.contains(p1) && s.contains(p2));
            } else {
                let p1 = choose|p1: Point| #[trigger] t.contains(p1) && adjacent(p1, p);
                assert(s.contains(p1) && s.contains(x));
            }
        }
        if exists|p1: Point, p2: Point|
            #![trigger s.contains(p1), s.contains(p2)]
            p1 != p2 && s.contains(p1) && s.contains(p2) && adjacent(p1, p) && adjacent(p2, p) {
            let (p1, p2) = choose|p1: Point, p2: Point|
                #![trigger s.contains(p1), s.contains(p2)]
                p1 != p2 && s.contains(p1) && s.contains(p2) && adjacent(p1, p) && adjacent(p2, p);
            if p1 == x {
                assert(t.contains(p2));
            } else if p2 == x {
                assert(t.contains(p1));
            } else {
                assert(t.contains(p1) && t.contains(p2));
            }
        }
    }
}

/// How many times the line-edge search visits `p` once the flood fill
/// has been explored up to `seen`: once for the start, and once more from
/// each explored neighbour when `p` has the fill's colour.
pub open spec fn visits(img: Image, origin: Point, colour: Pixel, seen: Seq<Point>, p: Point) -> nat {
    (if p == origin {
        1nat
    } else {
        0nat
    }) + if img.contains(p) && img.color(p) == colour {
        adj_count(seen, p)
    } else {
        0nat
    }
}

/// `p` is visited at least twice by the line-edge search: it has the
/// fill's colour and is either the start with a neighbour in the fill, or
/// has two neighbours in the fill.
pub open spec fn revisited(img: Image, origin: Point, colour: Pixel, p: Point) -> bool {
    &&& img.contains(p)
    &&& img.color(p) == colour
    &&& {
        ||| (p == origin && exists|p1: Point| #[trigger]
            in_region(img, origin, colour, p1) && adjacent(p1, p))
        ||| exists|p1: Point, p2: Point|
            #![trigger in_region(img, origin, colour, p1), in_region(img, origin, colour, p2)]
            p1 != p2 && in_region(img, origin, colour, p1) && in_region(img, origin, colour, p2)
                && adjacent(p1, p) && adjacent(p2, p)
    }
}

/// The black pixels next to the flood fill of colour `colour` from
/// `origin`: where the drawn line borders that colour. A black pixel of the
/// fill's colour itself counts only beside a position visited twice.
pub open spec fn in_line_edge(img: Image, origin: Point, colour: Pixel, q: Point) -> bool {
    &&& img.contains(q)
    &&& is_black(img.color(q))
    &&& exists|p: Point| #[trigger]
        in_region(img, origin, colour, p) && adjacent(p, q) && (img.color(q) != colour
            || revisited(img, origin, colour, p))
}

/// [`in_line_edge`] as a set.
pub open spec fn line_edge(img: Image, origin: Point, colour: Pixel) -> Set<Point> {
    Set::new(|q: Point| in_line_edge(img, origin, colour, q))
}

/// Once the whole fill is explored, the visit count tells revisits apart.
pub proof fn lemma_visits_two(img: Image, origin: Point, colour: Pixel, seen: Seq<Point>, p: Point)
    requires
        seen.no_duplicates(),
        forall|q: Point| #[trigger] seen.contains(q) <==> in_region(img, origin, colour, q),
    ensures
        visits(img, origin, colour, seen, p) >= 2 <==> revisited(img, origin, colour, p),
{
    lemma_adj_count_one(seen, p);
    lemma_adj_count_two(seen, p);
    if revisited(img, origin, colour, p) {
        if p == origin && exists|p1: Point| #[trigger]
            in_region(img, origin, colour, p1) && adjacent(p1, p) {
            let p1 = choose|p1: Point| #[trigger] in_region(img, origin, colour, p1) && adjacent(p1, p);
            assert(seen.contains(p1));
        } else {
            let (p1, p2) = choose|p1: Point, p2: Point|
                #![trigger in_region(img, origin, colour, p1), in_region(img, origin, colour, p2)]
                p1 != p2 && in_region(img, origin, colour, p1) && in_region(img, origin, colour, p2)
                    && adjacent(p1, p) && adjacent(p2, p);
            assert(seen.contains(p1) && seen.contains(p2));
        }
    }
    if visits(img, origin, colour, seen, p) >= 2 {
        if adj_count(seen, p) >= 2 {
            let (p1, p2) = choose|p1: Point, p2: Point|
                #![trigger seen.contains(p1), seen.contains(p2)]
                p1 != p2 && seen.contains(p1) && seen.contains(p2) && adjacent(p1, p) && adjacent(
                    p2,
                    p,
                );
            assert(in_region(img, origin, colour, p1) && in_region(img, origin, colour, p2));
        } else {
            let p1 = choose|p1: Point| #[trigger] seen.contains(p1) && adjacent(p1, p);
            assert(in_region(img, origin, colour, p1));
        }
    }
}


/// Some of the first `i` directions leads from `next` to `m`.
pub open spec fn among_first(dirs: Seq<Point>, next: Point, i: int, m: Point) -> bool {
    exists|j: int| 0 <= j < i && #[trigger] point_add(dirs[j], next) == m
}

/// The eight default directions are distinct.
pub proof fn lemma_default_directions_distinct()
    ensures
        forall|a: int, b: int|
            0 <= a < 8 && 0 <= b < 8 && a != b ==> #[trigger] default_directions()[a]
                != #[trigger] default_directions()[b],
{
}

/// Looks at the eight neighbours of `next` in the default order. When
/// `fresh`, those of colour `pixel` are pushed onto `neighbors`; the other
/// neighbours that are black (all black ones when not `fresh`) are added to
/// `points` unless already there. Fails as soon as a neighbour lies outside
/// the image.
fn scan_line_neighbours(
    img: &Image,
    pixel: &Pixel,
    next: Point,
    fresh: bool,
    dirs: &Vec<Point>,
    neighbors: &mut Vec<Point>,
    points: &mut Vec<Point>,
) -> (r: Result<(), TraceError>)
    requires
        img.wf(),
        img.contains(next),
        dirs@ == default_directions(),
        old(points)@.no_duplicates(),
    ensures
        r is Ok <==> all_neighbours_inside(*img, next),
        r matches Err(e) ==> e == TraceError::OutOfBounds,
        r is Ok ==> {
            &&& fresh ==> forall|q: Point| #[trigger]
                count_in(final(neighbors)@, q) == count_in(old(neighbors)@, q) + if colour_step(
                    *img,
                    *pixel,
                    next,
                    q,
                ) {
                    1nat
                } else {
                    0nat
                }
            &&& !fresh ==> final(neighbors)@ == old(neighbors)@
            &&& final(points)@.no_duplicates()
            &&& forall|q: Point| #[trigger]
                final(points)@.contains(q) <==> old(points)@.contains(q) || (adjacent(next, q)
                    && img.contains(q) && is_black(img.color(q)) && (!fresh || img.color(q)
                    != *pixel))
        },
{
    let ghost before = neighbors@;
    let ghost before_points = points@;
    proof {
        lemma_default_directions_distinct();
    }
    let mut i: usize = 0;
    while i < 8
        invariant
            img.wf(),
            img.contains(next),
            dirs@ == default_directions(),
            forall|a: int, b: int|
                0 <= a < 8 && 0 <= b < 8 && a != b ==> #[trigger] default_directions()[a]
                    != #[trigger] default_directions()[b],
            i <= 8,
            !fresh ==> neighbors@ == before,
            forall|q: Point| #[trigger]
                count_in(neighbors@, q) == count_in(before, q) + if fresh && colour_step(
                    *img,
                    *pixel,
                    next,
                    q,
                ) && among_first(dirs@, next, i as int, q) {
                    1nat
                } else {
                    0nat
                },
            forall|j: int| 0 <= j < i ==> img.contains(point_add(#[trigger] dirs@[j], next)),
            points@.no_duplicates(),
            forall|q: Point| #[trigger]
                points@.contains(q) ==> before_points.contains(q) || (adjacent(next, q)
                    && img.contains(q) && is_black(img.color(q)) && (!fresh || img.color(q)
                    != *pixel)),
            forall|q: Point| #[trigger] before_points.contains(q) ==> points@.contains(q),
            forall|j: int|
                0 <= j < i && is_black(img.color(point_add(#[trigger] dirs@[j], next))) && (!fresh
                    || img.color(point_add(dirs@[j], next)) != *pixel) ==> points@.contains(
                    point_add(dirs@[j], next),
                ),
        decreases 8 - i,
    {
        proof {
            lemma_default_directions_adjacent(next, i as int);
        }
        let moved = dirs[i] + next;
        let ghost nb_before = neighbors@;
        proof {
            assert forall|q: Point| q != moved implies #[trigger] among_first(
                dirs@,
                next,
                i + 1,
                q,
            ) == among_first(dirs@, next, i as int, q) by {
                if among_first(dirs@, next, i + 1, q) {
                    let j = choose|j: int| 0 <= j < i + 1 && #[trigger] point_add(dirs@[j], next) == q;
                    assert(j != i);
                }
            }
            assert(among_first(dirs@, next, i + 1, moved));
            assert(!among_first(dirs@, next, i as int, moved)) by {
                if among_first(dirs@, next, i as int, moved) {
                    let j = choose|j: int| 0 <= j < i && #[trigger] point_add(dirs@[j], next) == moved;
                    assert(dirs@[j] == dirs@[i as int]);
                }
            }
        }
        match img.get_pixel(moved) {
            None => {
                return Err(TraceError::OutOfBounds);
            },
            Some(moved_pixel) => {
                if fresh && moved_pixel == *pixel {
                    proof {
                        lemma_counts_after_push(neighbors@, moved);
                    }
                    neighbors.push(moved);
                } else if black_pixel(&moved_pixel) {
                    if !contains_point(points, &moved) {
                        proof {
                            lemma_push_contains(points@, moved);
                        }
                        points.push(moved);
                    }
                }
            },
        }
        i = i + 1;
    }
    proof {
        assert forall|q: Point| colour_step(*img, *pixel, next, q) implies #[trigger] among_first(
            dirs@,
            next,
            8,
            q,
        ) by {
            let j = lemma_direction_index(next, q);
            assert(point_add(dirs@[j], next) == q);
        }
        assert forall|q: Point|
            adjacent(next, q) && img.contains(q) && is_black(img.color(q)) && (!fresh || img.color(
                q,
            ) != *pixel) implies #[trigger] points@.contains(q) by {
            let j = lemma_direction_index(next, q);
        }
        let a = point_add(dirs@[0], next);
        let b = point_add(dirs@[7], next);
        let c = point_add(dirs@[2], next);
        let d = point_add(dirs@[4], next);
        assert(img.contains(a));
        assert(img.contains(b));
        assert(img.contains(c));
        assert(img.contains(d));
    }
    Ok(())
}


/// The black pixels found so far: next to a position popped once when
/// they do not have the fill's colour, or next to a position popped twice.
pub open spec fn found_so_far(img: Image, colour: Pixel, popped: Seq<Point>, q: Point) -> bool {
    &&& img.contains(q)
    &&& is_black(img.color(q))
    &&& exists|p: Point| #[trigger]
        count_in(popped, p) >= 1 && adjacent(p, q) && (img.color(q) != colour || count_in(
            popped,
            p,
        ) >= 2)
}

/// The black pixels that border the flood fill of colour `pixel` from
/// `origin_point` (see [`in_line_edge`]): where the drawn line touches that
/// colour. Fails when some position of the fill has a neighbour outside the
/// image.
pub fn try_line_points(origin_point: &Point, pixel: &Pixel, img: &Image) -> (r: Result<
    Vec<Point>,
    TraceError,
>)
    requires
        img.wf(),
        img.contains(*origin_point),
    ensures
        r is Err <==> region_escapes(*img, *origin_point, *pixel),
        r matches Err(e) ==> e == TraceError::OutOfBounds,
        r matches Ok(v) ==> {
            &&& v@.no_duplicates()
            &&& forall|q: Point| v@.contains(q) <==> in_line_edge(*img, *origin_point, *pixel, q)
        },
{
    let ghost origin = *origin_point;
    let ghost colour = *pixel;
    let ghost n = img.width() * img.height();
    let ghost mut popped: Seq<Point> = Seq::empty();
    let dirs = default_direction_list();
    let mut points: Vec<Point> = Vec::new();
    let mut seen: Vec<Point> = Vec::new();
    let mut neighbors: Vec<Point> = Vec::new();
    proof {
        lemma_push_contains(neighbors@, origin);
        lemma_counts_after_push(neighbors@, origin);
        lemma_origin_in_region(*img, origin, colour);
    }
    neighbors.push(*origin_point);
    while neighbors.len() > 0
        invariant
            img.wf(),
            img.contains(origin),
            origin == *origin_point,
            colour == *pixel,
            n == img.width() * img.height(),
            dirs@ == default_directions(),
            seen@.no_duplicates(),
            seen@.len() <= n,
            seen@.contains(origin) || neighbors@.contains(origin),
            forall|q: Point| #[trigger] seen@.contains(q) ==> in_region(*img, origin, colour, q),
            forall|q: Point| #[trigger]
                neighbors@.contains(q) ==> in_region(*img, origin, colour, q),
            forall|p: Point| #[trigger]
                seen@.contains(p) ==> all_neighbours_inside(*img, p) && steps_covered(
                    *img,
                    colour,
                    p,
                    seen@,
                    neighbors@,
                ),
            forall|p: Point| #[trigger] seen@.contains(p) <==> count_in(popped, p) >= 1,
            forall|p: Point| #[trigger]
                visits(*img, origin, colour, seen@, p) == count_in(popped, p) + count_in(
                    neighbors@,
                    p,
                ),
            points@.no_duplicates(),
            forall|q: Point| #[trigger] points@.contains(q) <==> found_so_far(*img, colour, popped, q),
        decreases n - seen@.len(), neighbors@.len(),
    {
        let ghost before = neighbors@;
        let ghost before_seen = seen@;
        let ghost before_points = points@;
        let ghost before_popped = popped;
        proof {
            lemma_drop_last_contains(before);
        }
        let next = neighbors.pop().unwrap();
        assert(before.contains(next)) by {
            assert(before[before.len() - 1] == next);
        }
        proof {
            lemma_region_inside(*img, origin, colour, next);
            assert(before =~= neighbors@.push(next));
            lemma_counts_after_push(neighbors@, next);
            lemma_counts_after_push(popped, next);
            popped = popped.push(next);
        }
        let ghost popped_nb = neighbors@;
        assert(popped_nb =~= before.drop_last());
        let fresh = !contains_point(&seen, &next);
        match scan_line_neighbours(img, pixel, next, fresh, &dirs, &mut neighbors, &mut points) {
            Err(e) => {
                assert(region_escapes(*img, origin, colour));
                return Err(e);
            },
            Ok(()) => {},
        }
        proof {
            assert(count_in(popped, next) == count_in(before_popped, next) + 1);
            assert(!fresh <==> count_in(before_popped, next) >= 1);
            assert forall|q: Point| #[trigger] points@.contains(q) implies found_so_far(
                *img,
                colour,
                popped,
                q,
            ) by {
                if before_points.contains(q) {
                    assert(found_so_far(*img, colour, before_popped, q));
                    let p = choose|p: Point| #[trigger]
                        count_in(before_popped, p) >= 1 && adjacent(p, q) && (img.color(q)
                            != colour || count_in(before_popped, p) >= 2);
                    assert(count_in(popped, p) >= count_in(before_popped, p));
                    assert(count_in(popped, p) >= 1);
                } else {
                    assert(count_in(popped, next) >= 1 && adjacent(next, q) && (img.color(q)
                        != colour || count_in(popped, next) >= 2));
                }
            }
            assert forall|q: Point| found_so_far(*img, colour, popped, q) implies #[trigger]
                points@.contains(q) by {
                let p = choose|p: Point| #[trigger]
                    count_in(popped, p) >= 1 && adjacent(p, q) && (img.color(q) != colour
                        || count_in(popped, p) >= 2);
                if p != next {
                    assert(count_in(before_popped, p) == count_in(popped, p));
                    assert(found_so_far(*img, colour, before_popped, q));
                    assert(before_points.contains(q));
                }
            }
            assert forall|q: Point| #[trigger] count_in(neighbors@, q) >= 1 implies in_region(
                *img,
                origin,
                colour,
                q,
            ) by {
                lemma_count_contains(neighbors@, q);
                lemma_count_contains(popped_nb, q);
                if fresh && colour_step(*img, colour, next, q) {
                    lemma_region_step(*img, origin, colour, next, q);
                } else {
                    assert(popped_nb.contains(q));
                    assert(before.contains(q));
                }
            }
            assert forall|q: Point| #[trigger]
                neighbors@.contains(q) implies in_region(*img, origin, colour, q) by {
                lemma_count_contains(neighbors@, q);
                assert(count_in(neighbors@, q) >= 1);
            }
        }
        if fresh {
            proof {
                lemma_push_contains(seen@, next);
                lemma_counts_after_push(seen@, next);
            }
            seen.push(next);
            proof {
                assert forall|p: Point| #[trigger] seen@.contains(p) implies all_neighbours_inside(
                    *img,
                    p,
                ) && steps_covered(*img, colour, p, seen@, neighbors@) by {
                    if p != next {
                        assert(before_seen.contains(p));
                        assert forall|q: Point| #[trigger]
                            colour_step(*img, colour, p, q) implies seen@.contains(q)
                            || neighbors@.contains(q) by {
                            assert(steps_covered(*img, colour, p, before_seen, before));
                            if before.contains(q) && !seen@.contains(q) {
                                lemma_count_contains(before, q);
                                lemma_count_contains(popped_nb, q);
                                lemma_count_contains(neighbors@, q);
                                if q == next {
                                    assert(seen@.contains(next));
                                }
                            }
                        }
                    } else {
                        assert forall|q: Point| #[trigger]
                            colour_step(*img, colour, p, q) implies seen@.contains(q)
                            || neighbors@.contains(q) by {
                            lemma_count_contains(neighbors@, q);
                        }
                    }
                }
                assert forall|i: int| 0 <= i < seen@.len() implies img.contains(
                    #[trigger] seen@[i],
                ) by {
                    assert(seen@.contains(seen@[i]));
                    lemma_region_inside(*img, origin, colour, seen@[i]);
                }
                lemma_distinct_positions_bounded(*img, seen@);
                assert forall|p: Point| #[trigger]
                    visits(*img, origin, colour, seen@, p) == count_in(popped, p) + count_in(
                        neighbors@,
                        p,
                    ) by {
                    assert(visits(*img, origin, colour, before_seen, p) == count_in(
                        before_popped,
                        p,
                    ) + count_in(before, p));
                }
                assert forall|p: Point| #[trigger] seen@.contains(p) <==> count_in(popped, p) >= 1 by {
                    assert(before_seen.contains(p) <==> count_in(before_popped, p) >= 1);
                }
                assert(seen@.contains(origin) || neighbors@.contains(origin)) by {
                    if !before_seen.contains(origin) && origin != next {
                        assert(before.contains(origin));
                        assert(popped_nb.contains(origin));
                        lemma_count_contains(popped_nb, origin);
                        lemma_count_contains(neighbors@, origin);
                    }
                }
            }
        } else {
            proof {
                assert forall|p: Point| #[trigger] seen@.contains(p) implies steps_covered(
                    *img,
                    colour,
                    p,
                    seen@,
                    neighbors@,
                ) by {
                    assert forall|q: Point| #[trigger]
                        colour_step(*img, colour, p, q) implies seen@.contains(q)
                        || neighbors@.contains(q) by {
                        assert(steps_covered(*img, colour, p, before_seen, before));
                        if before.contains(q) && q != next {
                            assert(popped_nb.contains(q));
                        }
                    }
                }
                assert forall|p: Point| #[trigger]
                    visits(*img, origin, colour, seen@, p) == count_in(popped, p) + count_in(
                        neighbors@,
                        p,
                    ) by {
                    assert(visits(*img, origin, colour, before_seen, p) == count_in(
                        before_popped,
                        p,
                    ) + count_in(before, p));
                }
                assert forall|p: Point| #[trigger] seen@.contains(p) <==> count_in(popped, p) >= 1 by {
                    assert(before_seen.contains(p) <==> count_in(before_popped, p) >= 1);
                }
                assert(seen@.contains(origin) || neighbors@.contains(origin)) by {
                    if !before_seen.contains(origin) {
                        assert(before.contains(origin));
                        assert(origin != next);
                        assert(popped_nb.contains(origin));
                    }
                }
            }
        }
    }
    proof {
        assert forall|q: Point| in_region(*img, origin, colour, q) implies seen@.contains(q) by {
            assert forall|p: Point| #[trigger] seen@.contains(p) implies steps_covered(
                *img,
                colour,
                p,
                seen@,
                Seq::empty(),
            ) by {
                assert forall|q2: Point| #[trigger]
                    colour_step(*img, colour, p, q2) implies seen@.contains(q2)
                    || Seq::<Point>::empty().contains(q2) by {
                    assert(steps_covered(*img, colour, p, seen@, neighbors@));
                    assert(neighbors@ =~= Seq::<Point>::empty());
                }
            }
            lemma_closed_holds_region(*img, origin, colour, seen@, q);
        }
        if region_escapes(*img, origin, colour) {
            let q = choose|q: Point| #[trigger]
                in_region(*img, origin, colour, q) && !all_neighbours_inside(*img, q);
            assert(seen@.contains(q));
        }
        assert(neighbors@ =~= Seq::<Point>::empty());
        assert forall|p: Point| #[trigger]
            count_in(popped, p) == visits(*img, origin, colour, seen@, p) by {
            assert(count_in(neighbors@, p) == 0);
        }
        assert forall|q: Point| #[trigger] seen@.contains(q) <==> in_region(*img, origin, colour, q) by {
        }
        assert forall|q: Point| points@.contains(q) <==> in_line_edge(*img, origin, colour, q) by {
            if points@.contains(q) {
                assert(found_so_far(*img, colour, popped, q));
                let p = choose|p: Point| #[trigger]
                    count_in(popped, p) >= 1 && adjacent(p, q) && (img.color(q) != colour
                        || count_in(popped, p) >= 2);
                assert(seen@.contains(p));
                lemma_visits_two(*img, origin, colour, seen@, p);
                assert(in_region(*img, origin, colour, p));
            }
            if in_line_edge(*img, origin, colour, q) {
                let p = choose|p: Point| #[trigger]
                    in_region(*img, origin, colour, p) && adjacent(p, q) && (img.color(q) != colour
                        || revisited(*img, origin, colour, p));
                assert(seen@.contains(p));
                lemma_visits_two(*img, origin, colour, seen@, p);
                assert(count_in(popped, p) >= 1);
                assert(found_so_far(*img, colour, popped, q));
            }
        }
    }
    Ok(points)
}

/// The black pixels that border the flood fill of colour `pixel` from
/// `origin_point` (see [`try_line_points`]), for a fill whose positions all
/// have their eight neighbours inside the image.
pub fn get_line_points(origin_point: &Point, pixel: &Pixel, img: &Image) -> (v: Vec<Point>)
    requires
        img.wf(),
        img.contains(*origin_point),
        !region_escapes(*img, *origin_point, *pixel),
    ensures
        v@.no_duplicates(),
        forall|q: Point| v@.contains(q) <==> in_line_edge(*img, *origin_point, *pixel, q),
{
    match try_line_points(origin_point, pixel, img) {
        Ok(v) => v,
        Err(_) => Vec::new(),
    }
}

} // verus!
