use yeti_paint::geom::{cell_of, div_down, div_up, Aabb, Point};
use yeti_paint::matrix::{Dims, Matrix};

#[test]
fn div_down_rounds_towards_negative_infinity() {
    assert_eq!(div_down(7, 2), 3);
    assert_eq!(div_down(-7, 2), -4);
    assert_eq!(div_down(-8, 2), -4);
    assert_eq!(div_down(-1, 256), -1);
    assert_eq!(div_down(0, 256), 0);
    assert_eq!(div_down(i32::MIN, 1), i32::MIN);
    assert_eq!(div_down(i32::MIN, 3), -715827883);
}

#[test]
fn div_up_rounds_towards_positive_infinity() {
    assert_eq!(div_up(7, 2), 4);
    assert_eq!(div_up(8, 2), 4);
    assert_eq!(div_up(-7, 2), -3);
    assert_eq!(div_up(-256, 256), -1);
    assert_eq!(div_up(1, 256), 1);
    assert_eq!(div_up(i32::MAX, 1), i32::MAX);
}

#[test]
fn negative_point_lies_in_negative_cell() {
    for n in [1, 3, 64, 256] {
        assert_eq!(cell_of(Point::new(-1, -1), n), Point::new(-1, -1));
    }
    assert_eq!(cell_of(Point::new(-256, 255), 256), Point::new(-1, 0));
    assert_eq!(cell_of(Point::new(-257, 256), 256), Point::new(-2, 1));
}

#[test]
fn point_keys_differ_for_distinct_points() {
    let a = Point::new(-1, 0).key();
    let b = Point::new(0, -1).key();
    assert_ne!(a, b);
    assert_eq!(Point::new(i32::MIN, i32::MIN).key(), 0);
    assert_eq!(Point::new(i32::MAX, i32::MAX).key(), u64::MAX);
}

#[test]
fn rectangle_corner() {
    let r = Aabb { x_min: -3, y_min: 4, x_max: 5, y_max: 9 };
    assert_eq!(r.bottom_left(), Point::new(-3, 4));
}

#[test]
fn matrix_fill_get_set() {
    let mut m = Matrix::filled_with(Dims { x: 2, y: 3 }, 7u8);
    assert_eq!(m.size(), Dims { x: 2, y: 3 });
    assert_eq!(m.as_slice(), &[7, 7, 7, 7, 7, 7]);
    m.set(1, 2, 9);
    m.set(0, 1, 4);
    assert_eq!(*m.get(1, 2), 9);
    assert_eq!(*m.get(0, 1), 4);
    assert_eq!(m.as_slice(), &[7, 4, 7, 7, 7, 9]);
    let c = m.copied();
    assert_eq!(c, m);
    assert!(m.is_well_formed());
}

#[test]
fn matrix_from_cells_checks_length() {
    assert!(Matrix::from_cells(Dims { x: 2, y: 2 }, vec![1u8, 2, 3]).is_none());
    let m = Matrix::from_cells(Dims { x: 2, y: 2 }, vec![1u8, 2, 3, 4]).unwrap();
    assert_eq!(*m.get(1, 0), 3);
    let empty = Matrix::from_cells(Dims { x: 0, y: 5 }, Vec::<u8>::new()).unwrap();
    assert_eq!(empty.size(), Dims { x: 0, y: 5 });
}
