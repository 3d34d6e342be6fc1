use drawlings::directions::{
    at_the_start, bottom, center, default_direction_list, left, left_bottom, left_top,
    next_directions, right, right_bottom, right_top, top,
};
use drawlings::point::Point;

fn first_is(direction: Point) {
    let from = Point { x: 0, y: 0 };
    let to = direction.clone();
    let list = next_directions(&from, &to).unwrap();
    assert_eq!(*list.first().expect("should be a list"), direction);
}

#[test]
fn direction_test_top() {
    first_is(top());
}

#[test]
fn direction_test_right_top() {
    first_is(right_top());
}

#[test]
fn direction_test_left_top() {
    first_is(left_top());
}

#[test]
fn direction_test_left() {
    first_is(left());
}

#[test]
fn direction_test_right() {
    first_is(right());
}

#[test]
fn direction_test_left_bottom() {
    first_is(left_bottom());
}

#[test]
fn direction_test_right_bottom() {
    first_is(right_bottom());
}

#[test]
fn direction_test_bottom() {
    first_is(bottom());
}

#[test]
fn test_next_direction_to_far() {
    let from = Point { x: 0, y: 0 };
    let to = Point { x: 0, y: 2 };
    assert_eq!(None, next_directions(&from, &to));
}

#[test]
fn next_directions_full_order() {
    let from = Point { x: 5, y: 5 };
    let to = Point { x: 6, y: 5 };
    let list = next_directions(&from, &to).unwrap();
    assert_eq!(
        list,
        vec![right(), right_top(), right_bottom(), top(), bottom(), left_top(), left_bottom(), left()]
    );
    let same = next_directions(&from, &from).unwrap();
    assert_eq!(same, default_direction_list());
    assert_eq!(center(), Point { x: 0, y: 0 });
    let back = next_directions(&to, &from).unwrap();
    assert_eq!(*back.last().unwrap(), right());
}

#[test]
fn test_at_the_start() {
    let start = Point { x: 0, y: 0 };
    let current = Point { x: 11, y: 6 };
    assert!(!at_the_start(&current, &start));

    let start = Point { x: 0, y: 0 };
    let current = Point { x: 9, y: 6 };
    assert!(!at_the_start(&current, &start));

    let start = Point { x: 0, y: 0 };
    let current = Point { x: 9, y: 4 };
    assert!(at_the_start(&current, &start));

    let start = Point { x: 0, y: 0 };
    let current = Point { x: -9, y: 4 };
    assert!(at_the_start(&current, &start));

    let start = Point { x: 0, y: 0 };
    let current = Point { x: 9, y: -4 };
    assert!(at_the_start(&current, &start));
}

#[test]
fn at_the_start_edges_and_symmetry() {
    let a = Point { x: 10, y: 0 };
    let b = Point { x: 0, y: 0 };
    assert!(!at_the_start(&a, &b));
    assert!(!at_the_start(&b, &a));
    let c = Point { x: 3, y: -4 };
    assert!(at_the_start(&c, &b));
    assert!(at_the_start(&b, &c));
    let d = Point { x: 0, y: 5 };
    assert!(!at_the_start(&d, &b));
}
