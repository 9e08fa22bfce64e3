use cubes::array::shape_fits;
use cubes::Polycube;

#[test]
fn ones_fills_every_cell() {
    let p = Polycube::ones(2, 3, 4).unwrap();
    assert_eq!(p.dim(), (2, 3, 4));
    assert_eq!(p.to_vec(), vec![1u8; 24]);
}

#[test]
fn ones_refuses_a_shape_that_cannot_exist() {
    assert!(Polycube::ones(usize::MAX, 2, 1).is_none());
    assert!(Polycube::ones(usize::MAX, 0, 1).is_none());
}

#[test]
fn from_shape_vec_keeps_row_order() {
    let p = Polycube::from_shape_vec(1, 2, 3, vec![0, 1, 2, 3, 4, 5]).unwrap();
    assert_eq!(p.dim(), (1, 2, 3));
    assert_eq!(p.to_vec(), vec![0, 1, 2, 3, 4, 5]);
}

#[test]
fn from_shape_vec_refuses_a_wrong_count() {
    assert!(Polycube::from_shape_vec(2, 2, 2, vec![1; 7]).is_none());
    assert!(Polycube::from_shape_vec(2, 2, 2, vec![1; 9]).is_none());
    assert!(Polycube::from_shape_vec(0, 2, 2, vec![1]).is_none());
    assert!(Polycube::from_shape_vec(0, 2, 2, vec![]).is_some());
    assert!(Polycube::from_shape_vec(usize::MAX, 0, 2, vec![]).is_none());
}

#[test]
fn shape_fits_goes_by_the_axes_that_are_not_zero() {
    let top = isize::MAX as usize;
    assert!(shape_fits(0, 0, 0));
    assert!(shape_fits(1, 1, 1));
    assert!(shape_fits(top, 1, 1));
    assert!(shape_fits(top, 0, 1));
    assert!(!shape_fits(top, 0, 2));
    assert!(!shape_fits(top, 2, 0));
    assert!(!shape_fits(top + 1, 0, 0));
    assert!(!shape_fits(usize::MAX, usize::MAX, usize::MAX));
}
