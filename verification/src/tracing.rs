use vstd::prelude::*;

use crate::directions::{
    adjacent, at_the_start, default_direction_list, default_directions, is_unit_step, near_start,
    next_directions, preferred_directions,
};
use crate::error::TraceError;
use crate::image::{black_pixel, is_black, palette, white, white_pixel, Image, Pixel, MAX_SIDE};
use crate::point::{point_add, point_sub, Point};
use crate::region::contains_point;
use crate::search::{locate_other_edge, point_lt, rings_cover, spec_locate_other_edge};

verus! {

/// `p` is the first pixel that is not white when the image is read column
/// by column, each column from the top row down.
pub open spec fn is_first_spot(img: Image, p: Point) -> bool {
    &&& img.contains(p)
    &&& img.color(p) != white()
    &&& forall|q: Point| #[trigger] img.contains(q) && point_lt(q, p) ==> img.color(q) == white()
}

/// Every pixel of the image is white.
pub open spec fn all_white(img: Image) -> bool {
    forall|q: Point| #[trigger] img.contains(q) ==> img.color(q) == white()
}

/// Where the trace starts: the first pixel that is not white, column by
/// column; `None` for an all-white image.
pub open spec fn spec_first_spot(img: Image) -> Option<Point> {
    if all_white(img) {
        None
    } else {
        Some(choose|p: Point| is_first_spot(img, p))
    }
}

/// An image has at most one first spot.
pub proof fn lemma_first_spot_unique(img: Image, p1: Point, p2: Point)
    requires
        is_first_spot(img, p1),
        is_first_spot(img, p2),
    ensures
        p1 == p2,
{
    if point_lt(p1, p2) {
        assert(img.contains(p1) && point_lt(p1, p2));
    } else if point_lt(p2, p1) {
        assert(img.contains(p2) && point_lt(p2, p1));
    }
}

/// The first pixel that is not white, reading the image column by column
/// and each column from the top down; `None` when every pixel is white.
pub fn first_spot(img: &Image) -> (r: Option<Point>)
    requires
        img.wf(),
    ensures
        r == spec_first_spot(*img),
        r matches Some(p) ==> is_first_spot(*img, p),
        r matches Some(p) ==> img.contains(p) && img.color(p) != white() && forall|q: Point|
            #[trigger] img.contains(q) && (q.x < p.x || (q.x == p.x && q.y < p.y)) ==> img.color(q)
                == white(),
        r is None <==> all_white(*img),
{
    let (img_x, img_y) = img.dimensions();
    let white_px = white_pixel();
    let mut move_x: u32 = 0;
    while move_x < img_x
        invariant
            img.wf(),
            img_x == img.width(),
            img_y == img.height(),
            img_x <= MAX_SIDE,
            img_y <= MAX_SIDE,
            white_px == white(),
            move_x <= img_x,
            forall|q: Point| #[trigger] img.contains(q) && q.x < move_x ==> img.color(q) == white(),
        decreases img_x - move_x,
    {
        let mut move_y: u32 = 0;
        while move_y < img_y
            invariant
                img.wf(),
                img_x == img.width(),
                img_y == img.height(),
                img_x <= MAX_SIDE,
                img_y <= MAX_SIDE,
                white_px == white(),
                move_x < img_x,
                move_y <= img_y,
                forall|q: Point| #[trigger]
                    img.contains(q) && q.x < move_x ==> img.color(q) == white(),
                forall|q: Point| #[trigger]
                    img.contains(q) && q.x == move_x && q.y < move_y ==> img.color(q) == white(),
            decreases img_y - move_y,
        {
            let spot = Point { x: move_x as i32, y: move_y as i32 };
            let pixel = img.get_pixel(spot);
            if pixel != Some(white_px) {
                proof {
                    assert(is_first_spot(*img, spot));
                    assert(!all_white(*img));
                    let c = choose|p: Point| is_first_spot(*img, p);
                    lemma_first_spot_unique(*img, c, spot);
                }
                return Some(spot);
            }
            move_y = move_y + 1;
        }
        move_x = move_x + 1;
    }
    None
}

} // verus!

verus! {

/// What the tracer knows between two steps.
pub struct TraceState {
    /// The points of the line so far, the first spot first.
    pub path: Seq<Point>,
    /// Points that led nowhere and were taken back.
    pub rejected: Seq<Point>,
    /// The order in which the neighbours of `current` will be tried.
    pub directions: Seq<Point>,
    /// Crossing colours already followed; each is followed once.
    pub used_colors: Seq<Pixel>,
    /// The point the tracer stands on.
    pub current: Point,
}

/// A trace in progress, or how it ended.
pub enum TraceStatus {
    Running(TraceState),
    Finished(Seq<Point>),
    Failed(TraceError),
}

/// The first of the directions from index `i` on that leads to a point
/// neither on the path nor rejected whose colour is neither white nor a
/// colour already followed; that point and its colour. Reading a point
/// outside the image fails.
pub open spec fn scan_directions(img: Image, st: TraceState, i: int) -> Result<
    Option<(Point, Pixel)>,
    TraceError,
>
    decreases st.directions.len() - i,
{
    if i < 0 || i >= st.directions.len() {
        Ok(None)
    } else {
        let point = point_add(st.directions[i], st.current);
        if st.path.contains(point) || st.rejected.contains(point) {
            scan_directions(img, st, i + 1)
        } else if !img.contains(point) {
            Err(TraceError::OutOfBounds)
        } else if img.color(point) != white() && !st.used_colors.contains(img.color(point)) {
            Ok(Some((point, img.color(point))))
        } else {
            scan_directions(img, st, i + 1)
        }
    }
}

/// The neighbour order after the path has reached its current shape: the
/// preference for the last move read backwards (from the last point to the
/// one before it), `directions` when the last two points are not
/// neighbours, and the default order while the path has a single point.
pub open spec fn heading_after(path: Seq<Point>, directions: Seq<Point>) -> Seq<Point> {
    if path.len() >= 2 {
        let pref = preferred_directions(point_sub(path[path.len() - 2], path[path.len() - 1]));
        if pref.len() > 0 {
            pref
        } else {
            directions
        }
    } else {
        default_directions()
    }
}

/// After a step between neighbours the tracer tries the way back first (a
/// point of the path, so it is passed over), then the turns closest to it,
/// and going straight on last.
pub proof fn lemma_heading_after_step(path: Seq<Point>, directions: Seq<Point>)
    requires
        path.len() >= 2,
        adjacent(path[path.len() - 2], path[path.len() - 1]),
    ensures
        heading_after(path, directions).len() == 8,
        heading_after(path, directions)[0] == point_sub(path[path.len() - 2], path[path.len() - 1]),
        heading_after(path, directions)[7] == point_sub(path[path.len() - 1], path[path.len() - 2]),
{
    let step = point_sub(path[path.len() - 2], path[path.len() - 1]);
    crate::directions::lemma_heading_kept(step);
}

/// The trace has closed: more than 50 points with the last one near the
/// start, or more than 100 000 points.
pub open spec fn trace_closed(path: Seq<Point>, first: Point) -> bool {
    (path.len() > 50 && near_start(path.last(), first)) || path.len() > 100_000
}

/// One step of the tracer from `st`: take the first suitable neighbour
/// (following a crossing colour to the far side of the line when the
/// neighbour is not black), or, when there is none, take back the last
/// point of the path.
pub open spec fn trace_step(
    img: Image,
    rings: Seq<Vec<Point>>,
    first: Point,
    st: TraceState,
) -> TraceStatus {
    match scan_directions(img, st, 0) {
        Err(e) => TraceStatus::Failed(e),
        Ok(candidate) => {
            let next: Result<Option<Point>, TraceError> = match candidate {
                None => Ok(None),
                Some((p, c)) => if is_black(c) {
                    Ok(Some(p))
                } else {
                    spec_locate_other_edge(img, p, c, rings)
                },
            };
            let used = match candidate {
                Some((p, c)) => if is_black(c) {
                    st.used_colors
                } else {
                    st.used_colors.push(c)
                },
                None => st.used_colors,
            };
            match next {
                Err(e) => TraceStatus::Failed(e),
                Ok(None) => {
                    let path = st.path.drop_last();
                    if path.len() == 0 {
                        TraceStatus::Failed(TraceError::NoPath)
                    } else {
                        TraceStatus::Running(
                            TraceState {
                                path,
                                rejected: st.rejected.push(st.path.last()),
                                directions: heading_after(path, st.directions),
                                used_colors: used,
                                current: path.last(),
                            },
                        )
                    }
                },
                Ok(Some(n)) => {
                    let path = st.path.push(n);
                    if trace_closed(path, first) {
                        TraceStatus::Finished(path)
                    } else {
                        TraceStatus::Running(
                            TraceState {
                                path,
                                rejected: st.rejected,
                                directions: heading_after(path, st.directions),
                                used_colors: used,
                                current: n,
                            },
                        )
                    }
                },
            }
        },
    }
}

/// The point the trace starts from (meaningful when the image is not all
/// white).
pub open spec fn start_point(img: Image) -> Point {
    match spec_first_spot(img) {
        Some(f) => f,
        None => Point { x: 0, y: 0 },
    }
}

/// The trace before its first step: at the first non-white pixel.
pub open spec fn trace_start(img: Image) -> TraceStatus {
    TraceStatus::Running(
        TraceState {
            path: seq![start_point(img)],
            rejected: Seq::empty(),
            directions: default_directions(),
            used_colors: Seq::empty(),
            current: start_point(img),
        },
    )
}

/// The trace after `n` steps; it stays put once finished or failed.
pub open spec fn trace_run(img: Image, rings: Seq<Vec<Point>>, n: nat) -> TraceStatus
    decreases n,
{
    if n == 0 {
        trace_start(img)
    } else {
        match trace_run(img, rings, (n - 1) as nat) {
            TraceStatus::Running(st) => trace_step(img, rings, start_point(img), st),
            other => other,
        }
    }
}

/// A trace stops short of 100 001 points only once it is back near its
/// start: a finished trace of at most 100 000 points holds more than 50
/// points and ends fewer than 10 pixels across and 5 pixels up or down from
/// the first spot.
pub proof fn lemma_finished_trace_closes(img: Image, rings: Seq<Vec<Point>>, n: nat)
    ensures
        trace_run(img, rings, n) matches TraceStatus::Finished(p) ==> (p.len() <= 100_000 ==> p.len()
            > 50 && -10 < p.last().x - start_point(img).x < 10 && -5 < p.last().y - start_point(
            img,
        ).y < 5),
    decreases n,
{
    if n > 0 {
        lemma_finished_trace_closes(img, rings, (n - 1) as nat);
        if let TraceStatus::Running(st) = trace_run(img, rings, (n - 1) as nat) {
            let first = start_point(img);
            if let TraceStatus::Finished(p) = trace_step(img, rings, first, st) {
                assert(trace_closed(p, first));
            }
        }
    }
}

/// A trace that has ended keeps its outcome for every later step count.
pub proof fn lemma_trace_ended_stays(img: Image, rings: Seq<Vec<Point>>, n: nat, m: nat)
    requires
        !(trace_run(img, rings, n) is Running),
        n <= m,
    ensures
        trace_run(img, rings, m) == trace_run(img, rings, n),
    decreases m - n,
{
    if m > n {
        lemma_trace_ended_stays(img, rings, n, (m - 1) as nat);
    }
}

/// The outcome of a trace does not depend on how many steps one looks
/// ahead: two step counts at which the trace has ended give the same
/// outcome.
pub proof fn lemma_trace_outcome_unique(img: Image, rings: Seq<Vec<Point>>, n: nat, m: nat)
    requires
        !(trace_run(img, rings, n) is Running),
        !(trace_run(img, rings, m) is Running),
    ensures
        trace_run(img, rings, n) == trace_run(img, rings, m),
{
    if n <= m {
        lemma_trace_ended_stays(img, rings, n, m);
    } else {
        lemma_trace_ended_stays(img, rings, m, n);
    }
}

} // verus!

verus! {

/// Every non-white pixel of `img` is black: the drawing has no crossing
/// colours.
pub open spec fn no_crossing_colours(img: Image) -> bool {
    forall|p: Point| img.contains(p) && img.color(p) != white() ==> is_black(#[trigger] img.color(p))
}

/// Every point of `path` after the first is a black pixel of `img`.
pub open spec fn black_after_first(img: Image, path: Seq<Point>) -> bool {
    forall|i: int| 1 <= i < path.len() ==> is_black(img.color(#[trigger] path[i]))
}

/// Consecutive points of `path` are neighbours.
pub open spec fn is_walk(path: Seq<Point>) -> bool {
    forall|i: int, j: int|
        #![trigger path[i], path[j]]
        0 <= i && j == i + 1 && j < path.len() ==> adjacent(path[i], path[j])
}

/// The invariant of a running trace: the path starts at `first`, ends at
/// the current point, stays on non-white pixels of the image, is black after
/// its first point, holds at most 100 000 points, none of them from the
/// 51st on near the start; without crossing colours it is a walk between
/// neighbours that never repeats a point.
/// Rejected points lie in the image; directions move by one pixel; the
/// followed colours are distinct colours of the image.
pub open spec fn state_ok(img: Image, first: Point, st: TraceState) -> bool {
    &&& st.path.len() >= 1
    &&& st.path[0] == first
    &&& st.current == st.path.last()
    &&& forall|i: int|
        0 <= i < st.path.len() ==> img.contains(#[trigger] st.path[i]) && img.color(st.path[i])
            != white()
    &&& black_after_first(img, st.path)
    &&& st.path.len() <= 100_000
    &&& forall|i: int| 50 <= i < st.path.len() ==> !near_start(#[trigger] st.path[i], first)
    &&& no_crossing_colours(img) ==> st.path.no_duplicates() && is_walk(st.path)
    &&& forall|i: int| 0 <= i < st.rejected.len() ==> img.contains(#[trigger] st.rejected[i])
    &&& forall|i: int| 0 <= i < st.directions.len() ==> is_unit_step(#[trigger] st.directions[i])
    &&& st.used_colors.no_duplicates()
    &&& forall|i: int|
        0 <= i < st.used_colors.len() ==> palette(img).contains(#[trigger] st.used_colors[i])
}

/// Whether `v` holds `p`.
fn contains_pixel(v: &Vec<Pixel>, p: &Pixel) -> (b: bool)
    ensures
        b == v@.contains(*p),
{
    let mut i: usize = 0;
    while i < v.len()
        invariant
            i <= v.len(),
            forall|j: int| 0 <= j < i ==> v@[j] != *p,
        decreases v.len() - i,
    {
        if v[i] == *p {
            return true;
        }
        i = i + 1;
    }
    false
}

/// The candidate the tracer moves to next (see [`scan_directions`]).
fn find_candidate(
    img: &Image,
    return_points: &Vec<Point>,
    bad_points: &Vec<Point>,
    used_cross_over_colors: &Vec<Pixel>,
    direction_change: &Vec<Point>,
    current_spot: Point,
) -> (r: Result<Option<(Point, Pixel)>, TraceError>)
    requires
        img.wf(),
        img.contains(current_spot),
        forall|i: int|
            0 <= i < direction_change@.len() ==> is_unit_step(#[trigger] direction_change@[i]),
    ensures
        r == scan_directions(
            *img,
            TraceState {
                path: return_points@,
                rejected: bad_points@,
                directions: direction_change@,
                used_colors: used_cross_over_colors@,
                current: current_spot,
            },
            0,
        ),
        r matches Err(e) ==> e == TraceError::OutOfBounds,
        r matches Ok(Some(found)) ==> {
            &&& img.contains(found.0)
            &&& found.1 == img.color(found.0)
            &&& found.1 != white()
            &&& !used_cross_over_colors@.contains(found.1)
            &&& !return_points@.contains(found.0)
            &&& !bad_points@.contains(found.0)
            &&& is_unit_step(point_sub(found.0, current_spot))
        },
{
    let ghost st = TraceState {
        path: return_points@,
        rejected: bad_points@,
        directions: direction_change@,
        used_colors: used_cross_over_colors@,
        current: current_spot,
    };
    let white_px = white_pixel();
    let mut i: usize = 0;
    while i < direction_change.len()
        invariant
            img.wf(),
            img.contains(current_spot),
            white_px == white(),
            forall|j: int|
                0 <= j < direction_change@.len() ==> is_unit_step(#[trigger] direction_change@[j]),
            st == (TraceState {
                path: return_points@,
                rejected: bad_points@,
                directions: direction_change@,
                used_colors: used_cross_over_colors@,
                current: current_spot,
            }),
            i <= direction_change@.len(),
            scan_directions(*img, st, 0) == scan_directions(*img, st, i as int),
        decreases direction_change.len() - i,
    {
        let direct = direction_change[i];
        assert(is_unit_step(direct));
        let point = direct + current_spot;
        if contains_point(return_points, &point) || contains_point(bad_points, &point) {
            i = i + 1;
            continue ;
        }
        match img.get_pixel(point) {
            None => {
                return Err(TraceError::OutOfBounds);
            },
            Some(pixel) => {
                if pixel != white_px && !contains_pixel(used_cross_over_colors, &pixel) {
                    return Ok(Some((point, pixel)));
                }
            },
        }
        i = i + 1;
    }
    Ok(None)
}

/// The neighbour order for the next step (see [`heading_after`]).
fn updated_directions(return_points: &Vec<Point>, direction_change: Vec<Point>) -> (r: Vec<Point>)
    requires
        forall|i: int|
            0 <= i < return_points@.len() ==> 0 <= (#[trigger] return_points@[i]).x <= MAX_SIDE
                && 0 <= return_points@[i].y <= MAX_SIDE,
    ensures
        r@ == heading_after(return_points@, direction_change@),
{
    let len = return_points.len();
    if len >= 2 {
        let last = return_points[len - 1];
        let before_last = return_points[len - 2];
        match next_directions(&last, &before_last) {
            Some(v) => v,
            None => direction_change,
        }
    } else {
        default_direction_list()
    }
}

} // verus!

verus! {

/// The points met by the path or rejected so far.
pub open spec fn visited(st: TraceState) -> Set<Point> {
    st.path.to_set().union(st.rejected.to_set())
}

/// The tracer between two steps (see [`trace_step`]).
pub struct Tracer {
    first: Point,
    return_points: Vec<Point>,
    bad_points: Vec<Point>,
    direction_change: Vec<Point>,
    used_cross_over_colors: Vec<Pixel>,
    current_spot: Point,
}

/// What one step of the tracer led to.
#[derive(Clone, Copy, Debug, PartialEq, Eq, Structural)]
pub enum StepOutcome {
    /// The tracer moved on or took a point back; the trace goes on.
    Moved,
    /// The trace has closed; its points are the tracer's path.
    Finished,
    /// The trace cannot go on.
    Failed(TraceError),
}

/// `a` comes before `b` in the order of first component, then second, then
/// third.
pub open spec fn lex_less(a: (int, int, int), b: (int, int, int)) -> bool {
    a.0 < b.0 || (a.0 == b.0 && (a.1 < b.1 || (a.1 == b.1 && a.2 < b.2)))
}

/// No component is negative.
pub open spec fn progress_ok(a: (int, int, int)) -> bool {
    a.0 >= 0 && a.1 >= 0 && a.2 >= 0
}

impl Tracer {
    /// Where the tracer stands, as a [`TraceState`].
    pub closed spec fn state(self) -> TraceState {
        TraceState {
            path: self.return_points@,
            rejected: self.bad_points@,
            directions: self.direction_change@,
            used_colors: self.used_cross_over_colors@,
            current: self.current_spot,
        }
    }

    /// The tracer belongs to `img`: it started at the first spot and its
    /// state keeps [`state_ok`].
    pub closed spec fn wf(self, img: Image) -> bool {
        &&& img.wf()
        &&& spec_first_spot(img) == Some(self.first)
        &&& state_ok(img, self.first, self.state())
        &&& self.used_cross_over_colors@.len() <= img.width() * img.height()
        &&& visited(self.state()).len() <= img.width() * img.height()
    }

    /// A measure that every step that keeps the trace going makes smaller
    /// (see [`lex_less`]): the crossing colours not yet followed, the pixels
    /// not yet met, and the length of the path.
    pub closed spec fn progress(self, img: Image) -> (int, int, int) {
        (
            img.width() * img.height() - self.used_cross_over_colors@.len(),
            img.width() * img.height() - visited(self.state()).len(),
            self.return_points@.len() as int,
        )
    }

    /// The tracer at the first non-white pixel of `img` (column by column),
    /// before its first step.
    pub fn start(img: &Image) -> (t: Tracer)
        requires
            img.wf(),
            !all_white(*img),
        ensures
            t.wf(*img),
            progress_ok(t.progress(*img)),
            trace_start(*img) == TraceStatus::Running(t.state()),
    {
        let first = match first_spot(img) {
            Some(f) => f,
            None => Point { x: 0, y: 0 },
        };
        let mut return_points: Vec<Point> = Vec::new();
        return_points.push(first);
        let t = Tracer {
            first,
            return_points,
            bad_points: Vec::new(),
            direction_change: default_direction_list(),
            used_cross_over_colors: Vec::new(),
            current_spot: first,
        };
        proof {
            crate::directions::lemma_preferred_unit_steps(first);
            crate::image::lemma_grid_size(*img);
            assert(t.return_points@ =~= seq![first]);
            assert(visited(t.state()).subset_of(crate::image::grid(*img)));
            vstd::set_lib::lemma_len_subset(visited(t.state()), crate::image::grid(*img));
        }
        t
    }

    /// The points of the path so far.
    pub fn path(&self) -> (p: &Vec<Point>)
        ensures
            p@ == self.state().path,
    {
        &self.return_points
    }

    /// The point the tracer stands on.
    pub fn current(&self) -> (p: Point)
        ensures
            p == self.state().current,
    {
        self.current_spot
    }

    /// The path, giving up the tracer.
    pub fn into_path(self) -> (p: Vec<Point>)
        ensures
            p@ == self.state().path,
    {
        self.return_points
    }

    /// One step of the tracer (see [`trace_step`]). While the trace goes on
    /// the tracer stays well-formed and its [`progress`](Tracer::progress)
    /// decreases; when it closes, the path is the closed trace.
    pub fn step(&mut self, img: &Image, rings: &Vec<Vec<Point>>) -> (r: StepOutcome)
        requires
            old(self).wf(*img),
            rings_cover(*img, rings@),
        ensures
            match trace_step(*img, rings@, start_point(*img), old(self).state()) {
                TraceStatus::Running(st) => {
                    &&& r == StepOutcome::Moved
                    &&& final(self).state() == st
                    &&& final(self).wf(*img)
                    &&& progress_ok(final(self).progress(*img))
                    &&& lex_less(final(self).progress(*img), old(self).progress(*img))
                },
                TraceStatus::Finished(p) => r == StepOutcome::Finished && final(self).state().path
                    == p,
                TraceStatus::Failed(e) => r == StepOutcome::Failed(e),
            },
            r == StepOutcome::Finished ==> {
                let p = final(self).state().path;
                &&& p.len() >= 1
                &&& spec_first_spot(*img) == Some(p[0])
                &&& forall|i: int|
                    0 <= i < p.len() ==> img.contains(#[trigger] p[i]) && img.color(p[i])
                        != white()
                &&& trace_closed(p, p[0])
                &&& p.len() <= 100_001
                &&& p.len() <= 100_000 ==> p.len() > 50 && -10 < p.last().x - p[0].x < 10 && -5
                    < p.last().y - p[0].y < 5
                &&& forall|i: int|
                    50 <= i < p.len() - 1 ==> !(-10 < (#[trigger] p[i]).x - p[0].x < 10 && -5 < p[i].y
                        - p[0].y < 5)
                &&& black_after_first(*img, p)
                &&& no_crossing_colours(*img) ==> p.no_duplicates() && is_walk(p)
            },
    {
        let ghost st = self.state();
        proof {
            crate::image::lemma_grid_size(*img);
        }
        assert(img.contains(self.current_spot)) by {
            assert(self.return_points@[self.return_points@.len() - 1] == self.current_spot);
        }
        let candidate = match find_candidate(
            img,
            &self.return_points,
            &self.bad_points,
            &self.used_cross_over_colors,
            &self.direction_change,
            self.current_spot,
        ) {
            Err(e) => {
                assert(trace_step(*img, rings@, start_point(*img), st) == TraceStatus::Failed(e));
                return StepOutcome::Failed(e);
            },
            Ok(c) => c,
        };
        let next: Option<Point> = match candidate {
            None => None,
            Some((point, pixel)) => {
                if black_pixel(&pixel) {
                    Some(point)
                } else {
                    match locate_other_edge(point, pixel, img, rings) {
                        Err(e) => {
                            assert(trace_step(*img, rings@, start_point(*img), st)
                                == TraceStatus::Failed(e));
                            return StepOutcome::Failed(e);
                        },
                        Ok(found) => {
                            self.used_cross_over_colors.push(pixel);
                            found
                        },
                    }
                }
            },
        };
        let ghost used_now = self.used_cross_over_colors@;
        proof {
            let grown = used_now.len() > st.used_colors.len();
            if grown {
                let c = candidate->Some_0.1;
                let p = candidate->Some_0.0;
                assert(used_now == st.used_colors.push(c));
                assert(palette(*img).contains(c)) by {
                    assert(crate::image::grid(*img).contains(p));
                }
                assert forall|i: int| 0 <= i < used_now.len() implies palette(*img).contains(
                    #[trigger] used_now[i],
                ) by {
                    if i < st.used_colors.len() {
                        assert(used_now[i] == st.used_colors[i]);
                    }
                }
                assert(used_now.no_duplicates()) by {
                    assert forall|a: int, b: int|
                        0 <= a < used_now.len() && 0 <= b < used_now.len() && a != b implies used_now[a]
                        != used_now[b] by {
                        assert(!st.used_colors.contains(c));
                        if a == used_now.len() - 1 {
                            assert(st.used_colors[b] == used_now[b]);
                            assert(st.used_colors.contains(used_now[b]));
                        } else if b == used_now.len() - 1 {
                            assert(st.used_colors[a] == used_now[a]);
                            assert(st.used_colors.contains(used_now[a]));
                        } else {
                            assert(st.used_colors[a] == used_now[a]);
                            assert(st.used_colors[b] == used_now[b]);
                        }
                    }
                }
                crate::image::lemma_distinct_colors_bounded(*img, used_now);
            } else {
                assert(used_now == st.used_colors);
            }
            crate::image::lemma_grid_size(*img);
        }
        match next {
            None => {
                let bad_parent = self.return_points.pop().unwrap();
                self.bad_points.push(bad_parent);
                proof {
                    crate::region::lemma_drop_last_contains(st.path);
                    crate::region::lemma_push_contains(st.rejected, bad_parent);
                    assert(self.return_points@ =~= st.path.drop_last());
                }
                if self.return_points.len() == 0 {
                    assert(trace_step(*img, rings@, start_point(*img), st) == TraceStatus::Failed(
                        TraceError::NoPath,
                    ));
                    return StepOutcome::Failed(TraceError::NoPath);
                }
                self.current_spot = self.return_points[self.return_points.len() - 1];
                proof {
                    assert(visited(
                        self.state(),
                    ) =~= visited(st));
                    assert forall|i: int| 0 <= i < self.return_points@.len() implies img.contains(
                        #[trigger] self.return_points@[i],
                    ) && img.color(self.return_points@[i]) != white() by {
                        assert(self.return_points@[i] == st.path[i]);
                    }
                    assert forall|i: int| 0 <= i < self.bad_points@.len() implies img.contains(
                        #[trigger] self.bad_points@[i],
                    ) by {
                        if i < st.rejected.len() {
                            assert(self.bad_points@[i] == st.rejected[i]);
                        } else {
                            assert(self.bad_points@[i] == st.path[st.path.len() - 1]);
                        }
                    }
                    assert(self.return_points@[0] == st.path[0]);
                }
            },
            Some(n) => {
                self.current_spot = n;
                self.return_points.push(self.current_spot);
                proof {
                    crate::region::lemma_push_contains(st.path, n);
                    assert forall|i: int| 0 <= i < self.return_points@.len() implies img.contains(
                        #[trigger] self.return_points@[i],
                    ) && img.color(self.return_points@[i]) != white() by {
                        if i < st.path.len() {
                            assert(self.return_points@[i] == st.path[i]);
                        }
                    }
                    assert(self.return_points@[0] == st.path[0]);
                    let vis = visited(
                        self.state(),
                    );
                    assert(vis =~= visited(st).insert(n));
                    assert(vis.subset_of(crate::image::grid(*img))) by {
                        assert forall|q: Point| vis.contains(q) implies crate::image::grid(
                            *img,
                        ).contains(q) by {
                            if self.return_points@.contains(q) {
                                let i = choose|i: int|
                                    0 <= i < self.return_points@.len() && self.return_points@[i] == q;
                                assert(img.contains(self.return_points@[i]));
                            } else {
                                let i = choose|i: int|
                                    0 <= i < self.bad_points@.len() && self.bad_points@[i] == q;
                                assert(img.contains(self.bad_points@[i]));
                            }
                        }
                    }
                    vstd::set_lib::lemma_len_subset(vis, crate::image::grid(*img));
                }
                if (self.return_points.len() > 50 && at_the_start(&self.current_spot, &self.first))
                    || self.return_points.len() > 100_000 {
                    assert(trace_step(*img, rings@, start_point(*img), st) == TraceStatus::Finished(
                        self.return_points@,
                    ));
                    return StepOutcome::Finished;
                }
            },
        }
        proof {
            assert forall|i: int| 0 <= i < self.return_points@.len() implies 0 <= (
            #[trigger] self.return_points@[i]).x <= MAX_SIDE && 0 <= self.return_points@[i].y
                <= MAX_SIDE by {
                assert(img.contains(self.return_points@[i]));
            }
            if self.return_points@.len() >= 2 {
                crate::directions::lemma_preferred_unit_steps(
                    point_sub(
                        self.return_points@[self.return_points@.len() - 2],
                        self.return_points@[self.return_points@.len() - 1],
                    ),
                );
            } else {
                crate::directions::lemma_preferred_unit_steps(self.current_spot);
            }
        }
        let mut dirs: Vec<Point> = Vec::new();
        std::mem::swap(&mut dirs, &mut self.direction_change);
        self.direction_change = updated_directions(&self.return_points, dirs);
        assert(trace_step(*img, rings@, start_point(*img), st) == TraceStatus::Running(
            self.state(),
        ));
        StepOutcome::Moved
    }
}

/// Traces the line that starts at the first non-white pixel (column by
/// column): from the current point it moves to the first neighbour, in the
/// current heading's order, that is neither on the path nor rejected and
/// whose colour is neither white nor a crossing colour already followed. A
/// black neighbour is taken as it is; a neighbour of another colour marks a
/// crossing, which is followed to the far side of the line. When no
/// neighbour qualifies, the last point is taken back. The trace ends once
/// it holds more than 50 points and is back near its start, or more than
/// 100 000 points.
///
/// A finished trace holds at most 100 001 points, all of them black but
/// possibly the first; it stops the first time it is back near its start
/// after 50 points, so no earlier point from the 51st on is near the start,
/// and with at most 100 000 points its last one is; when the drawing has no
/// crossing colours it moves from neighbour to neighbour and never comes
/// back to a point.
///
/// `rings[k]` holds the offsets of the circle at distance `k + 2` used to
/// find the far side of a crossing.
pub fn generator_vec(img: &Image, rings: &Vec<Vec<Point>>) -> (r: Result<Vec<Point>, TraceError>)
    requires
        img.wf(),
        !all_white(*img),
        rings_cover(*img, rings@),
    ensures
        r matches Ok(points) ==> exists|n: nat|
            trace_run(*img, rings@, n) == TraceStatus::Finished(points@),
        r matches Err(e) ==> exists|n: nat| trace_run(*img, rings@, n) == TraceStatus::Failed(e),
        r matches Ok(points) ==> {
            &&& points@.len() >= 1
            &&& spec_first_spot(*img) == Some(points@[0])
            &&& forall|i: int|
                0 <= i < points@.len() ==> img.contains(#[trigger] points@[i]) && img.color(
                    points@[i],
                ) != white()
            &&& trace_closed(points@, points@[0])
            &&& points@.len() <= 100_001
            &&& points@.len() <= 100_000 ==> points@.len() > 50 && -10 < points@.last().x
                - points@[0].x < 10 && -5 < points@.last().y - points@[0].y < 5
            &&& forall|i: int|
                50 <= i < points@.len() - 1 ==> !(-10 < (#[trigger] points@[i]).x - points@[0].x < 10
                    && -5 < points@[i].y - points@[0].y < 5)
            &&& black_after_first(*img, points@)
            &&& no_crossing_colours(*img) ==> points@.no_duplicates() && is_walk(points@)
        },
{
    let mut tracer = Tracer::start(img);
    let ghost mut k: nat = 0;
    loop
        invariant
            img.wf(),
            rings_cover(*img, rings@),
            tracer.wf(*img),
            progress_ok(tracer.progress(*img)),
            trace_run(*img, rings@, k) == TraceStatus::Running(tracer.state()),
        decreases tracer.progress(*img).0, tracer.progress(*img).1, tracer.progress(*img).2,
    {
        let ghost before = tracer;
        match tracer.step(img, rings) {
            StepOutcome::Moved => {
                proof {
                    assert(trace_run(*img, rings@, k + 1) == trace_step(
                        *img,
                        rings@,
                        start_point(*img),
                        before.state(),
                    ));
                    k = k + 1;
                }
            },
            StepOutcome::Finished => {
                assert(trace_run(*img, rings@, k + 1) == trace_step(
                    *img,
                    rings@,
                    start_point(*img),
                    before.state(),
                ));
                return Ok(tracer.into_path());
            },
            StepOutcome::Failed(e) => {
                assert(trace_run(*img, rings@, k + 1) == trace_step(
                    *img,
                    rings@,
                    start_point(*img),
                    before.state(),
                ));
                return Err(e);
            },
        }
    }
}

} // verus!
