use cubes::{all_rotations, crop_cube, cube_exists_rle, rle, FingerprintSet, Polycube};

fn cube(nx: usize, ny: usize, nz: usize, cells: &[u8]) -> Polycube {
    Polycube::from_shape_vec(nx, ny, nz, cells.to_vec()).unwrap()
}

fn only(p: &Polycube) -> FingerprintSet {
    let mut set = FingerprintSet::new();
    set.insert(rle(p));
    set
}

#[test]
fn nothing_is_known_to_the_empty_set() {
    let set = FingerprintSet::new();
    assert!(!cube_exists_rle(&Polycube::ones(1, 1, 1).unwrap(), &set));
}

#[test]
fn shape_is_known_by_its_own_fingerprint() {
    let p = cube(2, 2, 2, &[1, 0, 0, 0, 1, 0, 1, 1]);
    assert!(cube_exists_rle(&p, &only(&p)));
}

#[test]
fn every_rotation_is_known_by_the_fingerprint_of_the_shape() {
    let p = cube(2, 2, 2, &[1, 0, 0, 0, 1, 0, 1, 1]);
    let set = only(&p);
    for image in all_rotations(&p) {
        assert!(cube_exists_rle(&crop_cube(&image), &set));
        assert!(cube_exists_rle(&image, &set));
    }
}

#[test]
fn shape_is_known_by_the_fingerprint_of_any_rotation() {
    let p = cube(3, 2, 1, &[1, 1, 1, 0, 1, 0]);
    for image in all_rotations(&p) {
        assert!(cube_exists_rle(&p, &only(&crop_cube(&image))));
    }
}

#[test]
fn mirror_image_of_a_chiral_shape_is_not_known() {
    let p = cube(2, 2, 2, &[1, 0, 0, 0, 1, 0, 1, 1]);
    let mirror = cube(2, 2, 2, &[1, 0, 1, 1, 1, 0, 0, 0]);
    assert!(!cube_exists_rle(&mirror, &only(&p)));
    assert!(!cube_exists_rle(&p, &only(&mirror)));
}

#[test]
fn different_shapes_are_not_known() {
    let straight = Polycube::ones(3, 1, 1).unwrap();
    let bent = cube(2, 2, 1, &[1, 1, 0, 1]);
    assert!(!cube_exists_rle(&bent, &only(&straight)));
    assert!(!cube_exists_rle(&straight, &only(&bent)));
}

#[test]
fn fingerprint_of_an_uncropped_grid_matches_no_cropped_rotation() {
    let loose = cube(2, 1, 1, &[1, 0]);
    assert!(!cube_exists_rle(&loose, &only(&loose)));
    assert!(cube_exists_rle(&loose, &only(&crop_cube(&loose))));
}
