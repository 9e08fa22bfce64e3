use cubes::{rle, FingerprintSet, Polycube};

fn cube(nx: usize, ny: usize, nz: usize, cells: &[u8]) -> Polycube {
    Polycube::from_shape_vec(nx, ny, nz, cells.to_vec()).unwrap()
}

#[test]
fn test_rle() {
    let ones = Polycube::ones(3, 1, 1).unwrap();
    assert_eq!(rle(&ones), vec![3, 1, 1, 3]);
}

#[test]
fn rle_of_single_cube() {
    assert_eq!(rle(&Polycube::ones(1, 1, 1).unwrap()), vec![1, 1, 1, 1]);
}

#[test]
fn rle_alternates_signs() {
    let p = cube(2, 2, 2, &[1, 0, 0, 0, 1, 0, 1, 1]);
    assert_eq!(rle(&p), vec![2, 2, 2, 1, -3, 1, -1, 2]);
}

#[test]
fn rle_starts_with_empty_run() {
    let p = cube(1, 1, 4, &[0, 0, 1, 0]);
    assert_eq!(rle(&p), vec![1, 1, 4, -2, 1, -1]);
}

#[test]
fn rle_of_all_empty_grid() {
    let p = cube(2, 3, 1, &[0; 6]);
    assert_eq!(rle(&p), vec![2, 3, 1, -6]);
}

#[test]
fn rle_of_grid_without_cells() {
    let p = cube(0, 0, 0, &[]);
    assert_eq!(rle(&p), vec![0, 0, 0, 0]);
}

#[test]
fn rle_counts_other_values_as_empty_runs_of_their_own() {
    let p = cube(4, 1, 1, &[2, 2, 0, 1]);
    assert_eq!(rle(&p), vec![4, 1, 1, -2, -1, 1]);
}

#[test]
fn rle_tells_shapes_apart() {
    let a = cube(2, 2, 1, &[1, 1, 0, 1]);
    let b = cube(2, 2, 1, &[1, 0, 1, 1]);
    let c = cube(4, 1, 1, &[1, 1, 0, 1]);
    assert_ne!(rle(&a), rle(&b));
    assert_ne!(rle(&a), rle(&c));
    assert_eq!(rle(&a), rle(&cube(2, 2, 1, &[1, 1, 0, 1])));
}

#[test]
fn fingerprint_set_holds_what_was_inserted() {
    let mut set = FingerprintSet::new();
    assert!(!set.contains(&vec![1, 1, 1, 1]));
    assert!(set.insert(vec![1, 1, 1, 1]));
    assert!(set.contains(&vec![1, 1, 1, 1]));
    assert!(!set.contains(&vec![2, 1, 1, 2]));
    assert!(!set.contains(&vec![1, 1, 1]));
    assert!(!set.contains(&vec![]));
    assert!(!set.insert(vec![1, 1, 1, 1]));
    assert!(set.insert(vec![2, 1, 1, 2]));
    assert!(set.insert(vec![]));
    assert!(set.contains(&vec![1, 1, 1, 1]));
    assert!(set.contains(&vec![2, 1, 1, 2]));
    assert!(set.contains(&vec![]));
}

#[test]
fn fingerprint_set_holds_many() {
    let mut set = FingerprintSet::new();
    for a in -20isize..20 {
        for b in -20isize..20 {
            assert!(set.insert(vec![3, 2, 1, a, b]));
        }
    }
    for a in -20isize..20 {
        for b in -20isize..20 {
            assert!(set.contains(&vec![3, 2, 1, a, b]));
            assert!(!set.contains(&vec![3, 2, 1, a, b, 0]));
            assert!(!set.insert(vec![3, 2, 1, a, b]));
        }
    }
    assert!(!set.contains(&vec![3, 2, 1, 20, 0]));
    assert!(!set.contains(&vec![3, 2, 1, isize::MIN, isize::MAX]));
}
