use drawlings::directions::{default_direction_list, next_directions};
use drawlings::error::TraceError;
use drawlings::image::{black_pixel, Image, Pixel};
use drawlings::point::Point;
use drawlings::edge::{get_line_points, try_line_points};
use drawlings::region::{get_points_of_color, try_points_of_color};
use drawlings::search::{locate_other_edge, median_point, search_for_other_line, try_search_for_other_line};
use drawlings::tracing::{first_spot, generator_vec, StepOutcome, Tracer};

const WHITE: Pixel = Pixel { r: 255, g: 255, b: 255, a: 255 };
const BLACK: Pixel = Pixel { r: 0, g: 0, b: 0, a: 255 };
const RED: Pixel = Pixel { r: 255, g: 0, b: 0, a: 255 };

fn build(width: u32, height: u32, marks: &[((i32, i32), Pixel)]) -> Image {
    let mut pixels = vec![WHITE; (width * height) as usize];
    for ((x, y), p) in marks {
        pixels[(*y as u32 * width + *x as u32) as usize] = *p;
    }
    Image::new(width, height, pixels).expect("well-formed image")
}

fn black_at(points: &[(i32, i32)]) -> Vec<((i32, i32), Pixel)> {
    points.iter().map(|p| (*p, BLACK)).collect()
}

fn empty_rings(count: usize) -> Vec<Vec<Point>> {
    vec![Vec::new(); count]
}

fn sorted(mut v: Vec<Point>) -> Vec<(i32, i32)> {
    let mut out: Vec<(i32, i32)> = v.drain(..).map(|p| (p.x, p.y)).collect();
    out.sort();
    out
}

#[test]
fn image_new_checks_the_shape() {
    assert!(Image::new(2, 2, vec![WHITE; 4]).is_some());
    assert!(Image::new(2, 2, vec![WHITE; 3]).is_none());
    assert!(Image::new(0x8000_0000, 0, Vec::new()).is_none());
    assert!(Image::new(0x7fff_ffff, 0, Vec::new()).is_some());
    let img = build(3, 2, &[((2, 1), RED)]);
    assert_eq!(img.dimensions(), (3, 2));
    assert_eq!(img.get_pixel(Point { x: 2, y: 1 }), Some(RED));
    assert_eq!(img.get_pixel(Point { x: 0, y: 0 }), Some(WHITE));
    assert_eq!(img.get_pixel(Point { x: 3, y: 1 }), None);
    assert_eq!(img.get_pixel(Point { x: -1, y: 0 }), None);
}

#[test]
fn black_means_equal_grey_channels() {
    assert!(black_pixel(&BLACK));
    assert!(black_pixel(&Pixel { r: 200, g: 200, b: 200, a: 0 }));
    assert!(!black_pixel(&WHITE));
    assert!(!black_pixel(&RED));
    assert!(!black_pixel(&Pixel { r: 10, g: 10, b: 11, a: 255 }));
}

#[test]
fn test_first_spot() {
    let blank = build(10, 10, &[]);
    let dot = build(10, 10, &[((0, 0), BLACK)]);
    assert_eq!(None, first_spot(&blank));
    assert_eq!(Some(Point { x: 0, y: 0 }), first_spot(&dot));
}

#[test]
fn first_spot_reads_column_by_column() {
    let img = build(6, 6, &[((3, 1), BLACK), ((2, 4), RED)]);
    assert_eq!(Some(Point { x: 2, y: 4 }), first_spot(&img));
}

#[test]
fn points_of_color_fill_the_blob() {
    let img = build(8, 8, &[((3, 3), RED), ((4, 4), RED), ((5, 4), RED), ((3, 6), RED)]);
    let fill = get_points_of_color(&Point { x: 3, y: 3 }, &RED, &img);
    assert_eq!(sorted(fill), vec![(3, 3), (4, 4), (5, 4)]);
    let escaped = build(4, 4, &[((1, 1), RED), ((0, 1), RED)]);
    assert_eq!(
        try_points_of_color(&Point { x: 1, y: 1 }, &RED, &escaped),
        Err(TraceError::OutOfBounds)
    );
    assert_eq!(
        try_line_points(&Point { x: 1, y: 1 }, &RED, &escaped),
        Err(TraceError::OutOfBounds)
    );
    let fill = try_points_of_color(&Point { x: 3, y: 3 }, &RED, &img).unwrap();
    assert_eq!(sorted(fill), vec![(3, 3), (4, 4), (5, 4)]);
}

#[test]
fn line_points_border_the_blob() {
    let img = build(8, 8, &[((3, 3), RED), ((4, 3), RED), ((2, 2), BLACK), ((5, 4), BLACK), ((6, 4), BLACK)]);
    let edge = get_line_points(&Point { x: 3, y: 3 }, &RED, &img);
    assert_eq!(sorted(edge), vec![(2, 2), (5, 4)]);
}

#[test]
fn median_is_the_middle_in_x_then_y_order() {
    let v = vec![Point { x: 4, y: 1 }, Point { x: 1, y: 9 }, Point { x: 4, y: 0 }, Point { x: 2, y: 2 }];
    assert_eq!(median_point(&v), Some(Point { x: 4, y: 0 }));
    let three = vec![Point { x: 10, y: 6 }, Point { x: 10, y: 4 }, Point { x: 10, y: 5 }];
    assert_eq!(median_point(&three), Some(Point { x: 10, y: 5 }));
    assert_eq!(median_point(&Vec::new()), None);
}

#[test]
fn search_finds_the_other_blob() {
    let img = build(20, 20, &[((5, 5), RED), ((9, 5), RED), ((5, 9), RED)]);
    let mut rings = empty_rings(20);
    rings[0] = vec![Point { x: 0, y: 0 }, Point { x: 4, y: 0 }];
    rings[1] = vec![Point { x: 0, y: 4 }];
    let excluded = vec![Point { x: 5, y: 5 }];
    assert_eq!(
        search_for_other_line(&Point { x: 5, y: 5 }, &RED, &img, &excluded, &rings),
        Some(Point { x: 9, y: 5 })
    );
    let excluded = vec![Point { x: 5, y: 5 }, Point { x: 9, y: 5 }];
    assert_eq!(
        search_for_other_line(&Point { x: 5, y: 5 }, &RED, &img, &excluded, &rings),
        Some(Point { x: 5, y: 9 })
    );
    let nothing = empty_rings(20);
    assert_eq!(search_for_other_line(&Point { x: 5, y: 5 }, &RED, &img, &excluded, &nothing), None);
}

#[test]
fn locate_crosses_to_the_far_edge() {
    let img = build(
        20,
        20,
        &[((5, 5), RED), ((9, 5), RED), ((10, 4), BLACK), ((10, 5), BLACK), ((10, 6), BLACK)],
    );
    let mut rings = empty_rings(20);
    rings[0] = vec![Point { x: 4, y: 0 }];
    assert_eq!(locate_other_edge(Point { x: 5, y: 5 }, RED, &img, &rings), Ok(Some(Point { x: 10, y: 5 })));
    let lonely = build(20, 20, &[((5, 5), RED)]);
    assert_eq!(locate_other_edge(Point { x: 5, y: 5 }, RED, &lonely, &rings), Ok(None));
}

#[test]
fn trace_of_blank_single_and_border_images() {
    let rings = empty_rings(10);
    assert_eq!(first_spot(&build(10, 10, &[])), None);
    assert_eq!(generator_vec(&build(10, 10, &[((4, 4), BLACK)]), &rings), Err(TraceError::NoPath));
    assert_eq!(generator_vec(&build(10, 10, &[((0, 4), BLACK)]), &rings), Err(TraceError::OutOfBounds));
}

const RING: [(i32, i32); 68] = [
    (3, 7), (4, 7), (3, 8), (4, 8), (3, 9), (4, 9), (3, 10), (4, 10), (3, 11), (4, 11), (3, 12),
    (4, 12), (3, 13), (4, 13), (4, 14), (5, 13), (5, 14), (6, 14), (5, 15), (6, 15), (6, 16),
    (7, 15), (7, 16), (8, 16), (7, 17), (8, 17), (9, 16), (9, 17), (10, 16), (10, 17), (11, 16),
    (11, 17), (12, 16), (12, 17), (13, 16), (13, 17), (14, 16), (13, 15), (14, 15), (14, 14),
    (15, 15), (15, 14), (16, 14), (15, 13), (16, 13), (16, 12), (17, 13), (17, 12), (16, 11),
    (17, 11), (16, 10), (17, 10), (16, 9), (17, 9), (16, 8), (17, 8), (16, 7), (17, 7), (16, 6),
    (15, 7), (15, 6), (14, 6), (15, 5), (14, 5), (14, 4), (13, 5), (13, 4), (12, 4),
];

#[test]
fn test_full_circle() {
    let img = build(21, 21, &black_at(&RING));
    let points = generator_vec(&img, &empty_rings(21)).unwrap();
    let t: Vec<Point> = RING.iter().map(|(x, y)| Point { x: *x, y: *y }).collect();
    assert_eq!(t, points);
}

#[test]
fn trace_crosses_a_coloured_gap() {
    let mut marks: Vec<((i32, i32), Pixel)> = Vec::new();
    for x in 5..26 {
        if x != 14 && x != 15 && x != 16 {
            marks.push(((x, 5), BLACK));
        }
        marks.push(((x, 15), BLACK));
    }
    for y in 6..15 {
        marks.push(((5, y), BLACK));
        marks.push(((25, y), BLACK));
    }
    marks.push(((14, 5), RED));
    marks.push(((16, 5), RED));
    let img = build(30, 20, &marks);
    let mut rings = empty_rings(30);
    rings[0] = vec![Point { x: 2, y: 0 }, Point { x: -2, y: 0 }];
    let points = generator_vec(&img, &rings).unwrap();
    let mut expected: Vec<(i32, i32)> = vec![(5, 5), (6, 5)];
    for y in 6..15 {
        expected.push((5, y));
    }
    for x in 6..25 {
        expected.push((x, 15));
    }
    for y in (6..15).rev() {
        expected.push((25, y));
    }
    for x in (17..25).rev() {
        expected.push((x, 5));
    }
    for x in (10..14).rev() {
        expected.push((x, 5));
    }
    let got: Vec<(i32, i32)> = points.iter().map(|p| (p.x, p.y)).collect();
    assert_eq!(got.len(), 51);
    assert_eq!(got, expected);
}

#[test]
fn preferences_try_every_neighbour_once() {
    let mut all: Vec<(i32, i32)> = default_direction_list().iter().map(|p| (p.x, p.y)).collect();
    all.sort();
    for dx in -1..2 {
        for dy in -1..2 {
            let list = next_directions(&Point { x: 0, y: 0 }, &Point { x: dx, y: dy }).unwrap();
            let mut got: Vec<(i32, i32)> = list.iter().map(|p| (p.x, p.y)).collect();
            got.sort();
            assert_eq!(got, all);
        }
    }
}

#[test]
fn line_points_of_a_black_fill() {
    let grey = Pixel { r: 100, g: 100, b: 100, a: 255 };
    let img = build(8, 8, &[((3, 3), BLACK), ((4, 3), BLACK), ((5, 3), BLACK), ((2, 2), grey), ((6, 5), grey)]);
    let from_end = get_line_points(&Point { x: 3, y: 3 }, &BLACK, &img);
    assert_eq!(sorted(from_end), vec![(2, 2), (3, 3), (4, 3), (5, 3)]);
    let from_middle = get_line_points(&Point { x: 4, y: 3 }, &BLACK, &img);
    assert_eq!(sorted(from_middle), vec![(2, 2), (3, 3), (5, 3)]);
    let grey_fill = get_line_points(&Point { x: 3, y: 3 }, &grey, &img);
    assert_eq!(sorted(grey_fill), vec![(3, 3), (4, 3)]);
}

#[test]
fn step_by_step_matches_the_whole_trace() {
    let img = build(21, 21, &black_at(&RING));
    let rings = empty_rings(21);
    let mut tracer = Tracer::start(&img);
    assert_eq!(tracer.path().len(), 1);
    assert_eq!(tracer.current(), Point { x: 3, y: 7 });
    let mut steps = 0;
    loop {
        steps += 1;
        match tracer.step(&img, &rings) {
            StepOutcome::Moved => {}
            StepOutcome::Finished => break,
            StepOutcome::Failed(e) => panic!("{:?}", e),
        }
    }
    assert!(steps >= 67);
    assert_eq!(tracer.into_path(), generator_vec(&img, &rings).unwrap());
    let mut lonely = Tracer::start(&build(10, 10, &[((4, 4), BLACK)]));
    assert_eq!(lonely.step(&build(10, 10, &[((4, 4), BLACK)]), &empty_rings(10)), StepOutcome::Failed(TraceError::NoPath));
}

#[test]
fn a_trace_without_crossings_is_a_walk_without_repeats() {
    let img = build(21, 21, &black_at(&RING));
    let points = generator_vec(&img, &empty_rings(21)).unwrap();
    assert!(points.len() <= 100_001);
    for p in points.iter().skip(1) {
        assert!(black_pixel(&img.get_pixel(*p).unwrap()));
    }
    for pair in points.windows(2) {
        let (dx, dy) = (pair[1].x - pair[0].x, pair[1].y - pair[0].y);
        assert!(dx.abs() <= 1 && dy.abs() <= 1 && (dx, dy) != (0, 0));
    }
    let mut seen = sorted(points.clone());
    seen.dedup();
    assert_eq!(seen.len(), points.len());
}

#[test]
fn a_search_circle_beyond_i32_coordinates_overflows() {
    let img = build(20, 20, &[((5, 5), RED), ((9, 5), RED)]);
    let excluded = vec![Point { x: 5, y: 5 }];
    let mut rings = empty_rings(20);
    rings[1] = vec![Point { x: i32::MAX, y: 0 }];
    assert_eq!(
        try_search_for_other_line(&Point { x: 5, y: 5 }, &RED, &img, &excluded, &rings),
        Err(TraceError::Overflow)
    );
    rings[0] = vec![Point { x: 4, y: 0 }];
    assert_eq!(
        try_search_for_other_line(&Point { x: 5, y: 5 }, &RED, &img, &excluded, &rings),
        Ok(Some(Point { x: 9, y: 5 }))
    );
    rings[0] = vec![Point { x: 1, y: 1 }, Point { x: 0, y: i32::MAX - 4 }, Point { x: 4, y: 0 }];
    assert_eq!(
        try_search_for_other_line(&Point { x: 5, y: 5 }, &RED, &img, &excluded, &rings),
        Err(TraceError::Overflow)
    );
    let img = build(20, 20, &[((5, 5), RED), ((9, 5), RED), ((10, 4), BLACK), ((10, 5), BLACK)]);
    assert_eq!(locate_other_edge(Point { x: 5, y: 5 }, RED, &img, &rings), Err(TraceError::Overflow));
}
