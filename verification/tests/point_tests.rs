use ecc_core::errors::CurveError;
use ecc_core::point::Point;

#[test]
#[should_panic]
fn create_a_point_that_is_not_in_the_curve() {
    let a = 5i128;
    let b = 7i128;
    Point::new(Some(-1), Some(-1), a, b).unwrap();
    Point::new(Some(-1), Some(-2), a, b).unwrap();
}

#[test]
fn compare_two_points() {
    let a = 5i128;
    let b = 7i128;
    let p1 = Point::new(Some(-1), Some(-1), a, b).unwrap();
    let p2 = Point::new(Some(-1), Some(-1), a, b).unwrap();

    assert_eq!(p1, p2);
}

#[test]
fn add_two_points_with_the_same_x() {
    let a = 5i128;
    let b = 7i128;
    let p1 = Point::new(Some(-1), Some(-1), a, b).unwrap();
    let p2 = Point::new(Some(-1), Some(1), a, b).unwrap();
    let inf = Point::new(None, None, a, b).unwrap();

    assert_eq!(p1.add(inf).unwrap(), p1);
    assert_eq!(inf.add(p2).unwrap(), p2);
    assert_eq!(p1.add(p2).unwrap(), inf);
}

#[test]
fn add_two_points_with_different_x() {
    let a = 5i128;
    let b = 7i128;
    let p1 = Point::new(Some(2), Some(5), a, b).unwrap();
    let p2 = Point::new(Some(-1), Some(-1), a, b).unwrap();
    let p3 = Point::new(Some(3), Some(-7), a, b).unwrap();

    assert_eq!(p1.add(p2).unwrap(), p3);
}

#[test]
fn test00_create_valid_point() {
    assert!(Point::new_point(-1, -1, 5, 7).is_ok());
}

#[test]
fn test01_create_invalid_point() {
    assert!(Point::new_point(-1, -2, 5, 7).is_err());
}

#[test]
fn test02_points_with_same_cords_are_equal() {
    let point1 = Point::new_point(-1, -1, 5, 7).unwrap();
    let point2 = Point::new_point(-1, -1, 5, 7).unwrap();

    assert_eq!(point1, point2);
}

#[test]
fn test03_points_with_different_cords_are_different() {
    let point1 = Point::new_point(-1, -1, 5, 7).unwrap();
    let point2 = Point::new_point(18, 77, 5, 7).unwrap();

    assert_ne!(point1, point2);
}

#[test]
fn test04_sum_inifity_and_another_point_returns_the_point() {
    let infinity = Point::new_infinity(5, 7);
    let point = Point::new_point(-1, -1, 5, 7).unwrap();

    assert_eq!(point.add(infinity).unwrap(), point);
    assert_eq!(infinity.add(point).unwrap(), point);
}

#[test]
fn test05_two_different_points_from_the_same_curve_can_be_added() {
    let point1 = Point::new_point(2, 5, 5, 7).unwrap();
    let point2 = Point::new_point(-1, -1, 5, 7).unwrap();
    let expected_point3 = Point::new_point(3, -7, 5, 7).unwrap();

    assert_eq!(point1.add(point2).unwrap(), expected_point3);
    assert_eq!(point2.add(point1).unwrap(), expected_point3);
}

#[test]
fn test06_adding_the_same_point_results_infinity() {
    let point1 = Point::new_point(-1, -1, 5, 7).unwrap();
    let point2 = Point::new_point(-1, 1, 5, 7).unwrap();

    let expected_point3 = Point::new_infinity(5, 7);

    assert_eq!(point1.add(point2).unwrap(), expected_point3);
}

#[test]
fn mixed_coordinates_are_rejected() {
    assert_eq!(
        Point::new(Some(2), None, 5, 7),
        Err(CurveError::NotOnCurve)
    );
    assert_eq!(
        Point::new(None, Some(5), 5, 7),
        Err(CurveError::NotOnCurve)
    );
}

#[test]
fn off_curve_coordinates_give_not_on_curve() {
    assert_eq!(
        Point::new_point(-1, -2, 5, 7),
        Err(CurveError::NotOnCurve)
    );
}

#[test]
fn points_of_different_curves_cannot_be_added() {
    let p1 = Point::new_point(-1, -1, 5, 7).unwrap();
    let p2 = Point::new_point(0, 2, 0, 4).unwrap();
    assert_eq!(p1.add(p2), Err(CurveError::CurveMismatch));
    let i1 = Point::new_infinity(5, 7);
    let i2 = Point::new_infinity(0, 4);
    assert_eq!(i1.add(i2), Err(CurveError::CurveMismatch));
}

#[test]
fn doubling_a_point_with_zero_ordinate_gives_infinity() {
    // (1, 0) lies on y^2 = x^3 - 1; its tangent is vertical.
    let p = Point::new_point(1, 0, 0, -1).unwrap();
    assert_eq!(p.add(p).unwrap(), Point::new_infinity(0, -1));
}

#[test]
fn doubling_matches_the_tangent_construction() {
    let p = Point::new_point(-1, -1, 5, 7).unwrap();
    let doubled = Point::new_point(18, 77, 5, 7).unwrap();
    assert_eq!(p.add(p).unwrap(), doubled);
}
