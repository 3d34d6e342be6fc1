use drawlings::disk::disk_changes;
use drawlings::plotting::plot_coordinates;
use drawlings::point::Point;

#[test]
fn disk_changes_measure_from_the_center() {
    let points = vec![Point { x: 3, y: 7 }, Point { x: 10, y: 0 }];
    let (xs, ys) = disk_changes(&points, &Point { x: 21, y: 20 });
    assert_eq!(xs, vec![-7, 0]);
    assert_eq!(ys, vec![-3, -10]);
    let (xs, ys) = disk_changes(&points, &Point { x: -3, y: -1 });
    assert_eq!(xs, vec![4, 11]);
    assert_eq!(ys, vec![7, 0]);
}

#[test]
fn plot_coordinates_turn_y_upwards() {
    let points = vec![Point { x: 3, y: 7 }, Point { x: 10, y: 0 }];
    assert_eq!(plot_coordinates(&points, 20), vec![(3, 13), (10, 20)]);
}
