use faritany::point::{Point, int_to_string};

#[test]
fn point_new_and_equals() {
    let p = Point::new(3, -4);
    assert_eq!(p.x, 3);
    assert_eq!(p.y, -4);
    assert!(p.equals(&Point { x: 3, y: -4 }));
    assert!(!p.equals(&Point { x: -4, y: 3 }));
}

#[test]
fn point_add_moves() {
    let p = Point::new(1, 1).add(-1, 1);
    assert_eq!(p, Point::new(0, 2));
}

#[test]
fn point_within_bounds() {
    assert!(Point::new(0, 0).is_within_bounds(30));
    assert!(Point::new(29, 29).is_within_bounds(30));
    assert!(!Point::new(30, 0).is_within_bounds(30));
    assert!(!Point::new(0, -1).is_within_bounds(30));
}

#[test]
fn point_key_text() {
    assert_eq!(Point::new(3, -4).to_string(), "3,-4");
    assert_eq!(Point::new(0, 0).to_string(), "0,0");
    assert_eq!(Point::new(i32::MIN, i32::MAX).to_string(), "-2147483648,2147483647");
    assert_eq!(int_to_string(-120), "-120");
}

#[test]
fn point_from_key() {
    assert_eq!(Point::from_string("3,-4"), Point::new(3, -4));
    assert_eq!(Point::from_string("+7,08"), Point::new(7, 8));
    assert_eq!(Point::from_string("1,2,3"), Point::new(1, 2));
    assert_eq!(Point::from_string("-2147483648,2147483647"), Point::new(i32::MIN, i32::MAX));
}

#[test]
fn point_key_roundtrip_on_values() {
    for p in [
        Point::new(0, 0),
        Point::new(-1, 10),
        Point::new(123456, -98765),
        Point::new(i32::MIN, i32::MIN),
        Point::new(i32::MAX, -7),
    ] {
        assert_eq!(Point::from_string(&p.to_string()), p);
    }
}

fn diamond() -> Vec<Point> {
    vec![Point::new(2, 1), Point::new(3, 2), Point::new(2, 3), Point::new(1, 2)]
}

#[test]
fn polygon_inside_and_outside() {
    let poly = diamond();
    assert!(Point::new(2, 2).is_point_in_polygon(&poly));
    assert!(!Point::new(0, 0).is_point_in_polygon(&poly));
    assert!(!Point::new(4, 2).is_point_in_polygon(&poly));
    assert!(!Point::new(1, 1).is_point_in_polygon(&poly));
}

#[test]
fn polygon_vertices_are_not_inside() {
    let poly = diamond();
    for v in &poly {
        assert!(!v.is_point_in_polygon(&poly));
    }
}

#[test]
fn polygon_empty_has_no_inside() {
    assert!(!Point::new(0, 0).is_point_in_polygon(&[]));
}

#[test]
fn polygon_square_interior() {
    let square = vec![
        Point::new(0, 0),
        Point::new(1, 0),
        Point::new(2, 0),
        Point::new(3, 0),
        Point::new(3, 1),
        Point::new(3, 2),
        Point::new(3, 3),
        Point::new(2, 3),
        Point::new(1, 3),
        Point::new(0, 3),
        Point::new(0, 2),
        Point::new(0, 1),
    ];
    assert!(Point::new(1, 1).is_point_in_polygon(&square));
    assert!(Point::new(2, 2).is_point_in_polygon(&square));
    assert!(!Point::new(4, 1).is_point_in_polygon(&square));
    assert!(!Point::new(-1, 2).is_point_in_polygon(&square));
}

#[test]
fn polygon_inside_ignores_start_and_direction() {
    let poly = vec![
        Point::new(1, 0),
        Point::new(3, 1),
        Point::new(4, 3),
        Point::new(2, 4),
        Point::new(0, 2),
    ];
    let n = poly.len();
    for x in -1..6 {
        for y in -1..6 {
            let p = Point::new(x, y);
            let expected = p.is_point_in_polygon(&poly);
            for k in 0..=n {
                let mut rotated: Vec<Point> = poly[k..].to_vec();
                rotated.extend_from_slice(&poly[..k]);
                assert_eq!(p.is_point_in_polygon(&rotated), expected);
            }
            let reversed: Vec<Point> = poly.iter().rev().cloned().collect();
            assert_eq!(p.is_point_in_polygon(&reversed), expected);
        }
    }
    assert!(Point::new(2, 2).is_point_in_polygon(&poly));
}
