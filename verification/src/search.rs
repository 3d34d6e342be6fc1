use vstd::prelude::*;

use crate::error::TraceError;
use crate::image::{is_black, Image, Pixel};
use crate::point::{point_add, sum_fits, Point};
use crate::edge::{line_edge, try_line_points};
use crate::region::{contains_point, in_region, region, region_escapes, try_points_of_color};
use crate::directions::adjacent;

verus! {

/// `rings[k]` lists the offsets of the circle searched at distance `k + 2`.
/// The search may go on until the distance exceeds both sides of the image,
/// so there is one circle for each distance up to that point.
pub open spec fn rings_cover(img: Image, rings: Seq<Vec<Point>>) -> bool {
    &&& rings.len() >= 1
    &&& rings.len() >= img.width()
    &&& rings.len() >= img.height()
}

/// Every position on `ring` around `origin` has `i32` coordinates.
pub open spec fn ring_fits(ring: Seq<Point>, origin: Point) -> bool {
    forall|j: int| 0 <= j < ring.len() ==> sum_fits(#[trigger] ring[j], origin)
}

/// The position `offset` away from `origin` is a pixel of colour `colour`
/// inside the image that is not excluded.
pub open spec fn is_hit(
    img: Image,
    colour: Pixel,
    excluded: Set<Point>,
    origin: Point,
    offset: Point,
) -> bool {
    let c = point_add(offset, origin);
    &&& !excluded.contains(c)
    &&& img.contains(c)
    &&& img.color(c) == colour
}

/// The first offset along `ring` that is a hit, as a position.
pub open spec fn first_hit(
    img: Image,
    colour: Pixel,
    excluded: Set<Point>,
    origin: Point,
    ring: Seq<Point>,
) -> Option<Point>
    decreases ring.len(),
{
    if ring.len() == 0 {
        None
    } else if is_hit(img, colour, excluded, origin, ring[0]) {
        Some(point_add(ring[0], origin))
    } else {
        first_hit(img, colour, excluded, origin, ring.drop_first())
    }
}

/// Searches the circles from distance `d` outwards: the first hit on the
/// first circle that has one, giving up once `d` exceeds both the width and
/// the height. All positions of a circle are computed before any of them is
/// looked at, so a circle with a position beyond `i32` coordinates fails the
/// search, and so does a distance that would have to grow past `i32::MAX`.
pub open spec fn search_from(
    img: Image,
    colour: Pixel,
    excluded: Set<Point>,
    origin: Point,
    rings: Seq<Vec<Point>>,
    d: int,
) -> Result<Option<Point>, TraceError>
    decreases img.width() + img.height() + 1 - d,
{
    if !ring_fits(rings[d - 2]@, origin) {
        Err(TraceError::Overflow)
    } else {
        let hit = first_hit(img, colour, excluded, origin, rings[d - 2]@);
        if hit is Some {
            Ok(hit)
        } else if d > img.width() && d > img.height() {
            Ok(None)
        } else if d >= i32::MAX {
            Err(TraceError::Overflow)
        } else {
            search_from(img, colour, excluded, origin, rings, d + 1)
        }
    }
}

/// Whether every position on `ring` around `origin` has `i32` coordinates.
fn ring_fits_around(ring: &Vec<Point>, origin: &Point) -> (b: bool)
    ensures
        b == ring_fits(ring@, *origin),
{
    let mut i: usize = 0;
    while i < ring.len()
        invariant
            i <= ring@.len(),
            forall|j: int| 0 <= j < i ==> sum_fits(#[trigger] ring@[j], *origin),
        decreases ring.len() - i,
    {
        let offset = ring[i];
        let x: i64 = offset.x as i64 + origin.x as i64;
        let y: i64 = offset.y as i64 + origin.y as i64;
        if x < -0x8000_0000i64 || x > 0x7fff_ffffi64 || y < -0x8000_0000i64 || y > 0x7fff_ffffi64 {
            assert(!sum_fits(ring@[i as int], *origin));
            return false;
        }
        i = i + 1;
    }
    true
}

/// The first hit along one circle. A position that occurs twice on a circle
/// is simply tried twice, which cannot change which hit comes first.
fn ring_hit(
    origin_point: &Point,
    pixel: &Pixel,
    img: &Image,
    excluded_points: &Vec<Point>,
    ring: &Vec<Point>,
) -> (r: Option<Point>)
    requires
        img.wf(),
        ring_fits(ring@, *origin_point),
    ensures
        r == first_hit(*img, *pixel, excluded_points@.to_set(), *origin_point, ring@),
{
    let ghost excluded = excluded_points@.to_set();
    let mut i: usize = 0;
    assert(ring@.subrange(0, ring@.len() as int) =~= ring@);
    while i < ring.len()
        invariant
            img.wf(),
            ring_fits(ring@, *origin_point),
            excluded == excluded_points@.to_set(),
            i <= ring@.len(),
            first_hit(*img, *pixel, excluded, *origin_point, ring@) == first_hit(
                *img,
                *pixel,
                excluded,
                *origin_point,
                ring@.subrange(i as int, ring@.len() as int),
            ),
        decreases ring.len() - i,
    {
        let ghost rest = ring@.subrange(i as int, ring@.len() as int);
        assert(rest[0] == ring@[i as int]);
        assert(rest.drop_first() =~= ring@.subrange(i + 1, ring@.len() as int));
        let offset = ring[i];
        assert(sum_fits(offset, *origin_point));
        let point = offset + *origin_point;
        if !contains_point(excluded_points, &point) {
            if img.in_bounds(point) {
                let found = img.get_pixel(point);
                if found == Some(*pixel) {
                    return Some(point);
                }
            }
        }
        i = i + 1;
    }
    assert(ring@.subrange(i as int, ring@.len() as int).len() == 0);
    None
}

/// Looks for another blob of colour `pixel` around `origin_point`, on
/// circles of growing distance, skipping `excluded_points` (see
/// [`search_from`]); `Ok(None)` when no circle up to the image's size has
/// one, `Err(Overflow)` when a circle it reaches leaves `i32` coordinates.
/// Nothing found means that no offset on the circles up to distance one past
/// the larger side is a hit; a position found is the first hit on the first
/// circle that has one; an overflow needs an offset on one of those circles
/// that leaves `i32` coordinates, or a side of `i32::MAX` pixels.
pub fn try_search_for_other_line(
    origin_point: &Point,
    pixel: &Pixel,
    img: &Image,
    excluded_points: &Vec<Point>,
    rings: &Vec<Vec<Point>>,
) -> (r: Result<Option<Point>, TraceError>)
    requires
        img.wf(),
        rings_cover(*img, rings@),
    ensures
        r == search_from(*img, *pixel, excluded_points@.to_set(), *origin_point, rings@, 2),
        r matches Ok(Some(q)) ==> img.contains(q) && img.color(q) == *pixel,
        r matches Err(e) ==> e == TraceError::Overflow,
        r is Err ==> (exists|k: int, j: int|
            0 <= k && (k == 0 || k + 1 <= img.width() || k + 1 <= img.height()) && 0 <= j
                < rings@[k]@.len() && !sum_fits(#[trigger] rings@[k]@[j], *origin_point))
            || img.width() >= i32::MAX || img.height() >= i32::MAX,
        r == Ok::<Option<Point>, TraceError>(None) ==> forall|k: int, j: int|
            0 <= k && (k == 0 || k + 1 <= img.width() || k + 1 <= img.height()) && 0 <= j
                < rings@[k]@.len() ==> !is_hit(
                *img,
                *pixel,
                excluded_points@.to_set(),
                *origin_point,
                #[trigger] rings@[k]@[j],
            ),
        r matches Ok(Some(q)) ==> exists|k: int, j: int|
            0 <= k && (k == 0 || k + 1 <= img.width() || k + 1 <= img.height()) && 0 <= j
                < rings@[k]@.len() && q == point_add(rings@[k]@[j], *origin_point) && is_hit(
                *img,
                *pixel,
                excluded_points@.to_set(),
                *origin_point,
                #[trigger] rings@[k]@[j],
            ) && (forall|i: int|
                0 <= i < j ==> !is_hit(
                    *img,
                    *pixel,
                    excluded_points@.to_set(),
                    *origin_point,
                    #[trigger] rings@[k]@[i],
                )) && (forall|m: int, i: int|
                0 <= m < k && 0 <= i < rings@[m]@.len() ==> !is_hit(
                    *img,
                    *pixel,
                    excluded_points@.to_set(),
                    *origin_point,
                    #[trigger] rings@[m]@[i],
                )),
{
    let ghost excluded = excluded_points@.to_set();
    let (width, height) = img.dimensions();
    let mut distance: i32 = 2;
    loop
        invariant
            img.wf(),
            rings_cover(*img, rings@),
            excluded == excluded_points@.to_set(),
            width == img.width(),
            height == img.height(),
            width <= crate::image::MAX_SIDE,
            height <= crate::image::MAX_SIDE,
            2 <= distance,
            distance == 2 || distance - 1 <= width || distance - 1 <= height,
            search_from(*img, *pixel, excluded, *origin_point, rings@, 2) == search_from(
                *img,
                *pixel,
                excluded,
                *origin_point,
                rings@,
                distance as int,
            ),
        decreases width + height + 1 - distance,
    {
        proof {
            lemma_search_from_result(*img, *pixel, excluded, *origin_point, rings@, 0);
        }
        let k: usize = (distance - 2) as usize;
        let ring = &rings[k];
        if !ring_fits_around(ring, origin_point) {
            return Err(TraceError::Overflow);
        }
        let found = ring_hit(origin_point, pixel, img, excluded_points, ring);
        if let Some(point) = found {
            proof {
                lemma_first_hit_is_hit(*img, *pixel, excluded, *origin_point, ring@);
            }
            return Ok(Some(point));
        } else if distance > width as i32 && distance > height as i32 {
            return Ok(None);
        }
        if distance == 0x7fff_ffff {
            return Err(TraceError::Overflow);
        }
        distance = distance + 1;
    }
}

/// Looks for another blob of colour `pixel` around `origin_point`, on
/// circles of growing distance, skipping `excluded_points`; `None` when no
/// circle up to the image's size has one. Every circle the search reaches
/// stays within `i32` coordinates (see [`try_search_for_other_line`]).
pub fn search_for_other_line(
    origin_point: &Point,
    pixel: &Pixel,
    img: &Image,
    excluded_points: &Vec<Point>,
    rings: &Vec<Vec<Point>>,
) -> (r: Option<Point>)
    requires
        img.wf(),
        rings_cover(*img, rings@),
        search_from(*img, *pixel, excluded_points@.to_set(), *origin_point, rings@, 2) is Ok,
    ensures
        search_from(*img, *pixel, excluded_points@.to_set(), *origin_point, rings@, 2) == Ok::<
            Option<Point>,
            TraceError,
        >(r),
        r matches Some(q) ==> img.contains(q) && img.color(q) == *pixel,
        r is None ==> forall|k: int, j: int|
            0 <= k && (k == 0 || k + 1 <= img.width() || k + 1 <= img.height()) && 0 <= j
                < rings@[k]@.len() ==> !is_hit(
                *img,
                *pixel,
                excluded_points@.to_set(),
                *origin_point,
                #[trigger] rings@[k]@[j],
            ),
        r matches Some(q) ==> exists|k: int, j: int|
            0 <= k && (k == 0 || k + 1 <= img.width() || k + 1 <= img.height()) && 0 <= j
                < rings@[k]@.len() && q == point_add(rings@[k]@[j], *origin_point) && is_hit(
                *img,
                *pixel,
                excluded_points@.to_set(),
                *origin_point,
                #[trigger] rings@[k]@[j],
            ) && (forall|i: int|
                0 <= i < j ==> !is_hit(
                    *img,
                    *pixel,
                    excluded_points@.to_set(),
                    *origin_point,
                    #[trigger] rings@[k]@[i],
                )) && (forall|m: int, i: int|
                0 <= m < k && 0 <= i < rings@[m]@.len() ==> !is_hit(
                    *img,
                    *pixel,
                    excluded_points@.to_set(),
                    *origin_point,
                    #[trigger] rings@[m]@[i],
                )),
{
    match try_search_for_other_line(origin_point, pixel, img, excluded_points, rings) {
        Ok(found) => found,
        Err(_) => None,
    }
}

/// A first hit is a position of the searched colour inside the image.
pub proof fn lemma_first_hit_is_hit(
    img: Image,
    colour: Pixel,
    excluded: Set<Point>,
    origin: Point,
    ring: Seq<Point>,
)
    ensures
        first_hit(img, colour, excluded, origin, ring) matches Some(q) ==> img.contains(q)
            && img.color(q) == colour && !excluded.contains(q),
    decreases ring.len(),
{
    if ring.len() > 0 && !is_hit(img, colour, excluded, origin, ring[0]) {
        lemma_first_hit_is_hit(img, colour, excluded, origin, ring.drop_first());
    }
}


/// Along one circle, nothing is found exactly when no offset is a hit, and
/// what is found is the position of the first offset that is one.
pub proof fn lemma_first_hit_spec(
    img: Image,
    colour: Pixel,
    excluded: Set<Point>,
    origin: Point,
    ring: Seq<Point>,
)
    ensures
        first_hit(img, colour, excluded, origin, ring) is None <==> forall|j: int|
            0 <= j < ring.len() ==> !is_hit(img, colour, excluded, origin, #[trigger] ring[j]),
        first_hit(img, colour, excluded, origin, ring) matches Some(q) ==> exists|j: int|
            0 <= j < ring.len() && q == point_add(ring[j], origin) && is_hit(
                img,
                colour,
                excluded,
                origin,
                #[trigger] ring[j],
            ) && forall|i: int| 0 <= i < j ==> !is_hit(img, colour, excluded, origin, #[trigger] ring[i]),
    decreases ring.len(),
{
    if ring.len() > 0 {
        let rest = ring.drop_first();
        lemma_first_hit_spec(img, colour, excluded, origin, rest);
        assert forall|j: int| 0 <= j < rest.len() implies rest[j] == ring[j + 1] by {}
        if is_hit(img, colour, excluded, origin, ring[0]) {
            assert(first_hit(img, colour, excluded, origin, ring) == Some(point_add(ring[0], origin)));
        } else {
            assert(first_hit(img, colour, excluded, origin, ring) == first_hit(
                img,
                colour,
                excluded,
                origin,
                rest,
            ));
            if first_hit(img, colour, excluded, origin, rest) is None {
                assert forall|j: int| 0 <= j < ring.len() implies !is_hit(
                    img,
                    colour,
                    excluded,
                    origin,
                    #[trigger] ring[j],
                ) by {
                    if j > 0 {
                        assert(ring[j] == rest[j - 1]);
                    }
                }
            } else {
                let q = first_hit(img, colour, excluded, origin, rest)->Some_0;
                let j0 = choose|j: int|
                    0 <= j < rest.len() && q == point_add(rest[j], origin) && is_hit(
                        img,
                        colour,
                        excluded,
                        origin,
                        #[trigger] rest[j],
                    ) && forall|i: int|
                        0 <= i < j ==> !is_hit(img, colour, excluded, origin, #[trigger] rest[i]);
                assert(ring[j0 + 1] == rest[j0]);
                assert forall|i: int| 0 <= i < j0 + 1 implies !is_hit(
                    img,
                    colour,
                    excluded,
                    origin,
                    #[trigger] ring[i],
                ) by {
                    if i > 0 {
                        assert(ring[i] == rest[i - 1]);
                    }
                }
                assert(!is_hit(img, colour, excluded, origin, ring[0]));
            }
        }
    }
}

/// The circles a search from circle index `k0` looks at: index `k0`
/// itself and every later one whose distance `k + 2` is at most one more
/// than the width or the height.
pub open spec fn covered(img: Image, k0: int, k: int) -> bool {
    k0 <= k && (k == k0 || k + 1 <= img.width() || k + 1 <= img.height())
}

/// What a search from circle index `k0` (distance `k0 + 2`) finds: when it
/// finds nothing, no offset on any circle up to the one past both sides of
/// the image is a hit; when it finds a position, that position is the first
/// hit along the first circle that has one, and no earlier circle has any;
/// when it fails, one of those circles holds an offset that leaves `i32`
/// coordinates, or a side of the image is `i32::MAX` pixels long.
pub proof fn lemma_search_from_result(
    img: Image,
    colour: Pixel,
    excluded: Set<Point>,
    origin: Point,
    rings: Seq<Vec<Point>>,
    k0: int,
)
    requires
        rings_cover(img, rings),
        0 <= k0,
        k0 == 0 || k0 + 1 <= img.width() || k0 + 1 <= img.height(),
    ensures
        search_from(img, colour, excluded, origin, rings, k0 + 2) == Ok::<Option<Point>, TraceError>(
            None,
        ) ==> forall|k: int, j: int|
            covered(img, k0, k) && 0 <= j < rings[k]@.len() ==> !is_hit(
                img,
                colour,
                excluded,
                origin,
                #[trigger] rings[k]@[j],
            ),
        search_from(img, colour, excluded, origin, rings, k0 + 2) matches Ok(Some(q)) ==> exists|
            k: int,
            j: int,
        |
            covered(img, k0, k) && 0 <= j < rings[k]@.len() && q == point_add(rings[k]@[j], origin)
                && is_hit(img, colour, excluded, origin, #[trigger] rings[k]@[j]) && (forall|i: int|
                0 <= i < j ==> !is_hit(img, colour, excluded, origin, #[trigger] rings[k]@[i])) && (
            forall|m: int, i: int|
                k0 <= m < k && 0 <= i < rings[m]@.len() ==> !is_hit(
                    img,
                    colour,
                    excluded,
                    origin,
                    #[trigger] rings[m]@[i],
                )),
        search_from(img, colour, excluded, origin, rings, k0 + 2) is Err ==> (exists|k: int, j: int|
            covered(img, k0, k) && 0 <= j < rings[k]@.len() && !sum_fits(
                #[trigger] rings[k]@[j],
                origin,
            )) || img.width() >= i32::MAX || img.height() >= i32::MAX,
    decreases img.width() + img.height() + 1 - k0,
{
    let d = k0 + 2;
    let ring = rings[k0]@;
    assert(rings[d - 2]@ == ring);
    lemma_first_hit_spec(img, colour, excluded, origin, ring);
    if !ring_fits(ring, origin) {
        let j = choose|j: int| 0 <= j < ring.len() && !sum_fits(#[trigger] ring[j], origin);
        assert(covered(img, k0, k0));
        assert(!sum_fits(rings[k0]@[j], origin));
    } else if first_hit(img, colour, excluded, origin, ring) is Some {
        let q = first_hit(img, colour, excluded, origin, ring)->Some_0;
        let j0 = choose|j: int|
            0 <= j < ring.len() && q == point_add(ring[j], origin) && is_hit(
                img,
                colour,
                excluded,
                origin,
                #[trigger] ring[j],
            ) && forall|i: int| 0 <= i < j ==> !is_hit(img, colour, excluded, origin, #[trigger] ring[i]);
        assert(covered(img, k0, k0));
        assert(is_hit(img, colour, excluded, origin, rings[k0]@[j0]));
    } else if d > img.width() && d > img.height() {
        assert forall|k: int, j: int|
            covered(img, k0, k) && 0 <= j < rings[k]@.len() implies !is_hit(
            img,
            colour,
            excluded,
            origin,
            #[trigger] rings[k]@[j],
        ) by {
            assert(k == k0);
            assert(!is_hit(img, colour, excluded, origin, ring[j]));
        }
    } else if d >= i32::MAX {
    } else {
        lemma_search_from_result(img, colour, excluded, origin, rings, k0 + 1);
        assert(search_from(img, colour, excluded, origin, rings, k0 + 2) == search_from(
            img,
            colour,
            excluded,
            origin,
            rings,
            k0 + 1 + 2,
        ));
        if search_from(img, colour, excluded, origin, rings, k0 + 2) == Ok::<
            Option<Point>,
            TraceError,
        >(None) {
            assert forall|k: int, j: int|
                covered(img, k0, k) && 0 <= j < rings[k]@.len() implies !is_hit(
                img,
                colour,
                excluded,
                origin,
                #[trigger] rings[k]@[j],
            ) by {
                if k == k0 {
                    assert(!is_hit(img, colour, excluded, origin, ring[j]));
                } else {
                    assert(covered(img, k0 + 1, k));
                }
            }
        }
        if let Ok(Some(q)) = search_from(img, colour, excluded, origin, rings, k0 + 2) {
            let (k1, j1) = choose|k: int, j: int|
                covered(img, k0 + 1, k) && 0 <= j < rings[k]@.len() && q == point_add(
                    rings[k]@[j],
                    origin,
                ) && is_hit(img, colour, excluded, origin, #[trigger] rings[k]@[j]) && (forall|
                    i: int,
                |
                    0 <= i < j ==> !is_hit(img, colour, excluded, origin, #[trigger] rings[k]@[i]))
                    && (forall|m: int, i: int|
                    k0 + 1 <= m < k && 0 <= i < rings[m]@.len() ==> !is_hit(
                        img,
                        colour,
                        excluded,
                        origin,
                        #[trigger] rings[m]@[i],
                    ));
            assert(covered(img, k0, k1));
            assert forall|m: int, i: int| k0 <= m < k1 && 0 <= i < rings[m]@.len() implies !is_hit(
                img,
                colour,
                excluded,
                origin,
                #[trigger] rings[m]@[i],
            ) by {
                if m == k0 {
                    assert(!is_hit(img, colour, excluded, origin, ring[i]));
                }
            }
            assert(is_hit(img, colour, excluded, origin, rings[k1]@[j1]));
        }
        if search_from(img, colour, excluded, origin, rings, k0 + 2) is Err {
            if exists|k: int, j: int|
                covered(img, k0 + 1, k) && 0 <= j < rings[k]@.len() && !sum_fits(
                    #[trigger] rings[k]@[j],
                    origin,
                ) {
                let (k1, j1) = choose|k: int, j: int|
                    covered(img, k0 + 1, k) && 0 <= j < rings[k]@.len() && !sum_fits(
                        #[trigger] rings[k]@[j],
                        origin,
                    );
                assert(covered(img, k0, k1));
            }
        }
    }
}

/// The order of points by `x`, then by `y`.
pub open spec fn point_lt(a: Point, b: Point) -> bool {
    a.x < b.x || (a.x == b.x && a.y < b.y)
}

/// The members of `s` that come before `p`.
pub open spec fn below(s: Set<Point>, p: Point) -> Set<Point> {
    s.filter(|q: Point| point_lt(q, p))
}

/// `p` is the middle member of `s`: exactly `s.len() / 2` members come
/// before it.
pub open spec fn is_median(s: Set<Point>, p: Point) -> bool {
    s.contains(p) && below(s, p).len() == s.len() / 2
}

/// The middle member of `s` in the order of [`point_lt`] (the upper one of
/// the two middle members when `s` has an even size); `None` when `s` is
/// empty.
pub open spec fn set_median(s: Set<Point>) -> Option<Point> {
    if s.len() == 0 {
        None
    } else {
        Some(choose|p: Point| is_median(s, p))
    }
}

/// Each member of `s` is strictly before the later ones.
pub open spec fn strictly_sorted(s: Seq<Point>) -> bool {
    forall|i: int, j: int| 0 <= i < j < s.len() ==> point_lt(#[trigger] s[i], #[trigger] s[j])
}

/// A finite set has at most one middle member.
pub proof fn lemma_median_unique(s: Set<Point>, p1: Point, p2: Point)
    requires
        s.finite(),
        is_median(s, p1),
        is_median(s, p2),
    ensures
        p1 == p2,
{
    if p1 != p2 {
        let (a, b) = if point_lt(p1, p2) {
            (p1, p2)
        } else {
            (p2, p1)
        };
        assert(point_lt(a, b));
        assert(below(s, a).subset_of(below(s, b).remove(a)));
        vstd::set_lib::lemma_len_subset(below(s, a), below(s, b).remove(a));
        assert(below(s, b).contains(a));
        assert(below(s, b).finite());
    }
}

/// A finite non-empty set of points has a first member in the order of
/// [`point_lt`].
proof fn lemma_has_first(s: Set<Point>) -> (m: Point)
    requires
        s.finite(),
        s.len() > 0,
    ensures
        s.contains(m),
        forall|x: Point| #[trigger] s.contains(x) && x != m ==> point_lt(m, x),
    decreases s.len(),
{
    let x = s.choose();
    let rest = s.remove(x);
    if rest.len() == 0 {
        assert forall|y: Point| #[trigger] s.contains(y) && y != x implies point_lt(x, y) by {
            assert(rest.contains(y));
        }
        x
    } else {
        let m1 = lemma_has_first(rest);
        if point_lt(x, m1) {
            assert forall|y: Point| #[trigger] s.contains(y) && y != x implies point_lt(x, y) by {
                assert(rest.contains(y));
            }
            x
        } else {
            assert forall|y: Point| #[trigger] s.contains(y) && y != m1 implies point_lt(m1, y) by {
                if y != x {
                    assert(rest.contains(y));
                }
            }
            m1
        }
    }
}

/// A finite non-empty set of points has a last member in the order of
/// [`point_lt`].
proof fn lemma_has_last(s: Set<Point>) -> (m: Point)
    requires
        s.finite(),
        s.len() > 0,
    ensures
        s.contains(m),
        forall|x: Point| #[trigger] s.contains(x) && x != m ==> point_lt(x, m),
    decreases s.len(),
{
    let x = s.choose();
    let rest = s.remove(x);
    if rest.len() == 0 {
        assert forall|y: Point| #[trigger] s.contains(y) && y != x implies point_lt(y, x) by {
            assert(rest.contains(y));
        }
        x
    } else {
        let m1 = lemma_has_last(rest);
        if point_lt(m1, x) {
            assert forall|y: Point| #[trigger] s.contains(y) && y != x implies point_lt(y, x) by {
                assert(rest.contains(y));
            }
            x
        } else {
            assert forall|y: Point| #[trigger] s.contains(y) && y != m1 implies point_lt(y, m1) by {
                if y != x {
                    assert(rest.contains(y));
                }
            }
            m1
        }
    }
}

/// Every finite non-empty set of points has a middle member, so
/// [`set_median`] picks a member of the set.
pub proof fn lemma_median_exists(s: Set<Point>)
    requires
        s.finite(),
        s.len() > 0,
    ensures
        exists|p: Point| is_median(s, p),
        set_median(s) matches Some(p) && is_median(s, p) && s.contains(p),
    decreases s.len(),
{
    let lo = lemma_has_first(s);
    if s.len() == 1 {
        assert(below(s, lo) =~= Set::<Point>::empty()) by {
            assert forall|q: Point| !below(s, lo).contains(q) by {
                if s.contains(q) && q != lo {
                    assert(s.remove(lo).contains(q));
                    assert(s.remove(lo).len() == 0);
                }
            }
        }
        assert(is_median(s, lo));
    } else {
        let hi = lemma_has_last(s);
        assert(lo != hi) by {
            let y = s.remove(lo).choose();
            assert(s.remove(lo).len() > 0);
            assert(s.remove(lo).contains(y));
        }
        let inner = s.remove(lo).remove(hi);
        if inner.len() == 0 {
            assert(below(s, hi) =~= set![lo]) by {
                assert forall|q: Point| below(s, hi).contains(q) <==> q == lo by {
                    if s.contains(q) && q != lo && q != hi {
                        assert(inner.contains(q));
                    }
                }
            }
            assert(is_median(s, hi));
        } else {
            lemma_median_exists(inner);
            let p = choose|p: Point| is_median(inner, p);
            assert(inner.contains(p));
            assert(point_lt(lo, p));
            assert(point_lt(p, hi));
            assert(below(s, p) =~= below(inner, p).insert(lo)) by {
                assert forall|q: Point| below(s, p).contains(q) <==> below(inner, p).insert(lo).contains(q) by {
                    if q == hi {
                        assert(!point_lt(hi, p));
                    }
                }
            }
            assert(!below(inner, p).contains(lo));
            assert(below(inner, p).finite());
            assert(is_median(s, p));
        }
    }
    let c = choose|p: Point| is_median(s, p);
    assert(is_median(s, c));
}

/// Returns `points` in the order of [`point_lt`].
fn sorted_points(points: &Vec<Point>) -> (sorted: Vec<Point>)
    requires
        points@.no_duplicates(),
    ensures
        strictly_sorted(sorted@),
        sorted@.to_set() == points@.to_set(),
        sorted@.len() == points@.len(),
{
    let mut sorted: Vec<Point> = Vec::new();
    let mut i: usize = 0;
    while i < points.len()
        invariant
            points@.no_duplicates(),
            i <= points@.len(),
            strictly_sorted(sorted@),
            sorted@.len() == i,
            sorted@.to_set() == points@.subrange(0, i as int).to_set(),
        decreases points.len() - i,
    {
        let e = points[i];
        assert(!sorted@.contains(e)) by {
            if sorted@.contains(e) {
                assert(points@.subrange(0, i as int).to_set().contains(e));
                let j = choose|j: int| 0 <= j < i && points@.subrange(0, i as int)[j] == e;
                assert(points@[j] == points@[i as int]);
            }
        }
        let mut pos: usize = 0;
        while pos < sorted.len() && !(e.x < sorted[pos].x || (e.x == sorted[pos].x && e.y
            < sorted[pos].y))
            invariant
                pos <= sorted@.len(),
                forall|j: int| 0 <= j < pos ==> !point_lt(e, #[trigger] sorted@[j]),
            decreases sorted.len() - pos,
        {
            pos = pos + 1;
        }
        let ghost old_sorted = sorted@;
        sorted.insert(pos, e);
        proof {
            old_sorted.insert_ensures(pos as int, e);
            assert forall|a: int, b: int| 0 <= a < b < sorted@.len() implies point_lt(
                #[trigger] sorted@[a],
                #[trigger] sorted@[b],
            ) by {
                if a < pos {
                    assert(old_sorted.contains(old_sorted[a]));
                    assert(old_sorted[a] != e);
                    if b == pos {
                    } else if b < pos {
                    } else {
                        assert(sorted@[b] == old_sorted[b - 1]);
                    }
                } else if a == pos {
                    assert(sorted@[b] == old_sorted[b - 1]);
                    if b - 1 > pos {
                        assert(point_lt(old_sorted[pos as int], old_sorted[b - 1]));
                    }
                } else {
                    assert(sorted@[a] == old_sorted[a - 1]);
                    assert(sorted@[b] == old_sorted[b - 1]);
                }
            }
            assert(points@.subrange(0, i + 1) =~= points@.subrange(0, i as int).push(e));
            points@.subrange(0, i as int).lemma_push_to_set_commute(e);
            assert forall|q: Point| sorted@.to_set().contains(q) <==> old_sorted.to_set().insert(
                e,
            ).contains(q) by {
                if sorted@.contains(q) {
                    let j = choose|j: int| 0 <= j < sorted@.len() && sorted@[j] == q;
                    if j < pos {
                        assert(old_sorted[j] == q);
                    } else if j > pos {
                        assert(old_sorted[j - 1] == q);
                    }
                }
                if old_sorted.contains(q) {
                    let j = choose|j: int| 0 <= j < old_sorted.len() && old_sorted[j] == q;
                    if j < pos {
                        assert(sorted@[j] == q);
                    } else {
                        assert(sorted@[j + 1] == q);
                    }
                }
                if q == e {
                    assert(sorted@[pos as int] == e);
                }
            }
            assert(sorted@.to_set() =~= points@.subrange(0, i + 1).to_set());
        }
        i = i + 1;
    }
    assert(points@.subrange(0, points@.len() as int) =~= points@);
    sorted
}

/// The middle point of `points` in the order of [`point_lt`]: what a sort
/// followed by picking the element at index `len / 2` gives; `None` when
/// `points` is empty.
pub fn median_point(points: &Vec<Point>) -> (r: Option<Point>)
    requires
        points@.no_duplicates(),
    ensures
        r == set_median(points@.to_set()),
        r matches Some(p) ==> points@.contains(p),
        r is None <==> points@.len() == 0,
        r matches Some(p) ==> points@.to_set().filter(
            |q: Point| q.x < p.x || (q.x == p.x && q.y < p.y),
        ).len() == points@.len() / 2,
{
    let sorted = sorted_points(points);
    if sorted.len() == 0 {
        proof {
            assert(points@.len() == 0);
            points@.unique_seq_to_set();
        }
        return None;
    }
    let k = sorted.len() / 2;
    let m = sorted[k];
    proof {
        let s = points@.to_set();
        let t = sorted@;
        points@.unique_seq_to_set();
        assert forall|a: int, b: int| 0 <= a < t.len() && 0 <= b < t.len() && a != b implies t[a]
            != t[b] by {
            if a < b {
                assert(point_lt(t[a], t[b]));
            } else {
                assert(point_lt(t[b], t[a]));
            }
        }
        let front = t.subrange(0, k as int);
        assert forall|q: Point| below(s, m).contains(q) <==> front.to_set().contains(q) by {
            if below(s, m).contains(q) {
                assert(t.to_set().contains(q));
                let j = choose|j: int| 0 <= j < t.len() && t[j] == q;
                if j >= k {
                    if j > k {
                        assert(point_lt(t[k as int], t[j]));
                    }
                }
                assert(front[j] == q);
            }
            if front.to_set().contains(q) {
                let j = choose|j: int| 0 <= j < front.len() && front[j] == q;
                assert(t[j] == q);
                assert(point_lt(t[j], t[k as int]));
                assert(t.to_set().contains(q));
            }
        }
        assert(below(s, m) =~= front.to_set());
        front.unique_seq_to_set();
        assert(t.to_set().contains(m));
        assert(is_median(s, m));
        let c = choose|p: Point| is_median(s, p);
        lemma_median_unique(s, c, m);
        assert(t.contains(m));
        assert(s.filter(|q: Point| q.x < m.x || (q.x == m.x && q.y < m.y)) =~= below(s, m));
    }
    Some(m)
}


/// Where the tracer lands after meeting the crossing colour `colour` at
/// `point`: it flood-fills that colour, searches the circles for another
/// blob of it outside the fill, and takes the middle of the black pixels
/// that border the other blob.
pub open spec fn spec_locate_other_edge(
    img: Image,
    point: Point,
    colour: Pixel,
    rings: Seq<Vec<Point>>,
) -> Result<Option<Point>, TraceError> {
    if region_escapes(img, point, colour) {
        Err(TraceError::OutOfBounds)
    } else {
        match search_from(img, colour, region(img, point, colour), point, rings, 2) {
            Err(e) => Err(e),
            Ok(None) => Ok(None),
            Ok(Some(other)) => if region_escapes(img, other, colour) {
                Err(TraceError::OutOfBounds)
            } else {
                Ok(set_median(line_edge(img, other, colour)))
            },
        }
    }
}

/// The crossing search lands on the far side: when following the crossing
/// colour `colour` from `point` gives a position, that position has a
/// neighbour of the crossing colour that the flood fill of that colour from
/// `point` does not reach: a pixel of another blob, not of the one the
/// tracer came through.
pub proof fn lemma_crossing_lands_beyond(
    img: Image,
    point: Point,
    colour: Pixel,
    rings: Seq<Vec<Point>>,
)
    requires
        img.wf(),
        rings_cover(img, rings),
    ensures
        spec_locate_other_edge(img, point, colour, rings) matches Ok(Some(p)) ==> exists|q: Point|
            #[trigger] adjacent(q, p) && img.contains(q) && img.color(q) == colour && !in_region(
                img,
                point,
                colour,
                q,
            ),
{
    if let Ok(Some(p)) = spec_locate_other_edge(img, point, colour, rings) {
        let excluded = region(img, point, colour);
        lemma_search_from_result(img, colour, excluded, point, rings, 0);
        let other = search_from(img, colour, excluded, point, rings, 2)->Ok_0->Some_0;
        assert(!in_region(img, point, colour, other) && img.contains(other) && img.color(other)
            == colour) by {
            let (k, j) = choose|k: int, j: int|
                covered(img, 0, k) && 0 <= j < rings[k]@.len() && other == point_add(
                    rings[k]@[j],
                    point,
                ) && is_hit(img, colour, excluded, point, #[trigger] rings[k]@[j]) && (forall|
                    i: int,
                |
                    0 <= i < j ==> !is_hit(img, colour, excluded, point, #[trigger] rings[k]@[i]))
                    && (forall|m: int, i: int|
                    0 <= m < k && 0 <= i < rings[m]@.len() ==> !is_hit(
                        img,
                        colour,
                        excluded,
                        point,
                        #[trigger] rings[m]@[i],
                    ));
            assert(is_hit(img, colour, excluded, point, rings[k]@[j]));
        }
        let edge = line_edge(img, other, colour);
        crate::image::lemma_grid_size(img);
        assert(edge.subset_of(crate::image::grid(img)));
        vstd::set_lib::lemma_len_subset(edge, crate::image::grid(img));
        lemma_median_exists(edge);
        assert(crate::edge::in_line_edge(img, other, colour, p));
        let q = choose|q: Point| #[trigger]
            in_region(img, other, colour, q) && adjacent(q, p) && (img.color(p) != colour
                || crate::edge::revisited(img, other, colour, q));
        crate::region::lemma_region_colour(img, other, colour, q);
        if in_region(img, point, colour, q) {
            crate::region::lemma_regions_meet(img, point, other, colour, q);
        }
        assert(adjacent(q, p) && img.contains(q) && img.color(q) == colour && !in_region(
            img,
            point,
            colour,
            q,
        ));
    }
}

/// Follows the line across a crossing marked with colour `pixel` at
/// `point` (see [`spec_locate_other_edge`]); the point found, if any, is a
/// black pixel of the image.
pub fn locate_other_edge(point: Point, pixel: Pixel, img: &Image, rings: &Vec<Vec<Point>>) -> (r:
    Result<Option<Point>, TraceError>)
    requires
        img.wf(),
        img.contains(point),
        rings_cover(*img, rings@),
    ensures
        r == spec_locate_other_edge(*img, point, pixel, rings@),
        r matches Ok(Some(p)) ==> img.contains(p) && is_black(img.color(p)),
        r matches Ok(Some(p)) ==> exists|q: Point|
            #[trigger] adjacent(q, p) && img.contains(q) && img.color(q) == pixel && !in_region(
                *img,
                point,
                pixel,
                q,
            ),
{
    proof {
        lemma_crossing_lands_beyond(*img, point, pixel, rings@);
    }
    let start_line_points = try_points_of_color(&point, &pixel, img)?;
    assert(start_line_points@.to_set() =~= region(*img, point, pixel));
    match try_search_for_other_line(&point, &pixel, img, &start_line_points, rings)? {
        Some(next_color_line_point) => {
            let next_line_points = try_line_points(&next_color_line_point, &pixel, img)?;
            assert(next_line_points@.to_set() =~= line_edge(*img, next_color_line_point, pixel));
            let found = median_point(&next_line_points);
            proof {
                if let Some(p) = found {
                    assert(crate::edge::in_line_edge(*img, next_color_line_point, pixel, p));
                }
            }
            Ok(found)
        },
        None => Ok(None),
    }
}

} // verus!
