use drawlings::point::Point;

#[test]
fn test_sub() {
    let point = Point { x: 1, y: 1 };
    let other_point = Point { x: -1, y: -1 };
    let origin = Point { x: 0, y: 0 };
    assert_eq!(origin, point - point);
    assert_eq!(other_point, origin - point);
    assert_eq!(point, point - origin);
}

#[test]
fn test_add() {
    let point = Point { x: 1, y: 1 };
    let other_point = Point { x: 2, y: 2 };
    let origin = Point { x: 0, y: 0 };
    assert_eq!(other_point, point + point);
    assert_eq!(point, origin + point);
    assert_eq!(point, point + origin);
}

#[test]
fn test_eq() {
    let point = Point { x: 1, y: 1 };
    let origin = Point { x: 0, y: 0 };
    assert_eq!(true, point == point);
    assert_eq!(false, origin == point);
    assert_eq!(true, origin == origin);
}

#[test]
fn add_then_sub_restores() {
    let a = Point { x: 7, y: -3 };
    let b = Point { x: -2, y: 11 };
    assert_eq!(a, (a - b) + b);
    assert_eq!(a + b, b + a);
    assert_eq!(Point { x: 5, y: 8 }, a + b);
    assert_eq!(Point { x: 9, y: -14 }, a - b);
}

#[test]
fn default_and_origin() {
    assert_eq!(Point::default(), Point { x: 0, y: 0 });
    assert_eq!(Point::origin(), Point { x: 0, y: 0 });
}
