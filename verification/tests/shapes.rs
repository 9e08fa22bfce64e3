use cubes::{all_rotations, crop_cube, expand_cube, Polycube};
use std::collections::HashSet;

fn cube(nx: usize, ny: usize, nz: usize, cells: &[u8]) -> Polycube {
    Polycube::from_shape_vec(nx, ny, nz, cells.to_vec()).unwrap()
}

fn parts(p: &Polycube) -> ((usize, usize, usize), Vec<u8>) {
    (p.dim(), p.to_vec())
}

#[test]
fn crop_strips_empty_slabs_from_all_faces() {
    let mut cells = vec![0u8; 27];
    cells[13] = 1;
    cells[16] = 1;
    let cropped = crop_cube(&cube(3, 3, 3, &cells));
    assert_eq!(parts(&cropped), ((1, 2, 1), vec![1, 1]));
}

#[test]
fn crop_keeps_empty_cells_inside_the_box() {
    let mut cells = vec![0u8; 12];
    cells[3] = 1;
    cells[6] = 1;
    cells[7] = 1;
    let cropped = crop_cube(&cube(4, 3, 1, &cells));
    assert_eq!(parts(&cropped), ((2, 2, 1), vec![1, 0, 1, 1]));
}

#[test]
fn crop_leaves_the_single_cube() {
    let cropped = crop_cube(&Polycube::ones(1, 1, 1).unwrap());
    assert_eq!(parts(&cropped), ((1, 1, 1), vec![1]));
}

#[test]
fn crop_of_an_empty_grid_has_no_cells() {
    let cropped = crop_cube(&cube(2, 2, 2, &[0; 8]));
    assert_eq!(parts(&cropped), ((0, 0, 0), vec![]));
    let again = crop_cube(&cropped);
    assert_eq!(parts(&again), ((0, 0, 0), vec![]));
}

#[test]
fn crop_goes_by_cells_of_value_one() {
    let cropped = crop_cube(&cube(2, 1, 1, &[2, 1]));
    assert_eq!(parts(&cropped), ((1, 1, 1), vec![1]));
}

#[test]
fn crop_is_idempotent() {
    let mut cells = vec![0u8; 4 * 5 * 3];
    for i in [17usize, 20, 21, 35, 38] {
        cells[i] = 1;
    }
    let once = crop_cube(&cube(4, 5, 3, &cells));
    let twice = crop_cube(&once);
    assert_eq!(parts(&once), parts(&twice));
    assert_eq!(once.dim(), (2, 3, 3));
}

#[test]
fn crop_leaves_no_empty_boundary_slab() {
    let mut cells = vec![0u8; 4 * 5 * 3];
    for i in [17usize, 20, 21, 35, 38] {
        cells[i] = 1;
    }
    let c = crop_cube(&cube(4, 5, 3, &cells));
    let (nx, ny, nz) = c.dim();
    let v = c.to_vec();
    let at = |x: usize, y: usize, z: usize| v[(x * ny + y) * nz + z];
    for x in [0, nx - 1] {
        assert!((0..ny).any(|y| (0..nz).any(|z| at(x, y, z) == 1)));
    }
    for y in [0, ny - 1] {
        assert!((0..nx).any(|x| (0..nz).any(|z| at(x, y, z) == 1)));
    }
    for z in [0, nz - 1] {
        assert!((0..nx).any(|x| (0..ny).any(|y| at(x, y, z) == 1)));
    }
}

#[test]
fn rotations_are_twenty_four() {
    let p = cube(1, 2, 3, &[0, 1, 2, 3, 4, 5]);
    let all = all_rotations(&p);
    assert_eq!(all.len(), 24);
    let distinct: HashSet<((usize, usize, usize), Vec<u8>)> = all.iter().map(parts).collect();
    assert_eq!(distinct.len(), 24);
    for image in &all {
        let mut cells = image.to_vec();
        cells.sort();
        assert_eq!(cells, vec![0, 1, 2, 3, 4, 5]);
        let (nx, ny, nz) = image.dim();
        let mut dims = [nx, ny, nz];
        dims.sort();
        assert_eq!(dims, [1, 2, 3]);
    }
}

#[test]
fn first_rotation_is_the_identity() {
    let p = cube(1, 2, 3, &[0, 1, 2, 3, 4, 5]);
    let all = all_rotations(&p);
    assert_eq!(parts(&all[0]), ((1, 2, 3), vec![0, 1, 2, 3, 4, 5]));
}

#[test]
fn rotation_reverses_two_axes() {
    let p = cube(2, 1, 1, &[1, 0]);
    let all = all_rotations(&p);
    assert_eq!(parts(&all[2]), ((2, 1, 1), vec![0, 1]));
    assert_eq!(parts(&all[1]), ((2, 1, 1), vec![1, 0]));
}

#[test]
fn rotation_about_the_first_axis() {
    let p = cube(1, 2, 3, &[0, 1, 2, 3, 4, 5]);
    let all = all_rotations(&p);
    assert_eq!(parts(&all[4]), ((1, 3, 2), vec![2, 5, 1, 4, 0, 3]));
}

#[test]
fn rotations_of_a_symmetric_shape_repeat() {
    let p = Polycube::ones(1, 1, 1).unwrap();
    for image in all_rotations(&p) {
        assert_eq!(parts(&image), ((1, 1, 1), vec![1]));
    }
}

#[test]
fn rotations_never_mirror() {
    let p = cube(2, 2, 2, &[1, 0, 0, 0, 1, 0, 1, 1]);
    let mirror = ((2, 2, 2), vec![1u8, 0, 1, 1, 1, 0, 0, 0]);
    for image in all_rotations(&p) {
        assert_ne!(parts(&image), mirror);
    }
}

#[test]
fn expand_single_cube() {
    let out = expand_cube(&Polycube::ones(1, 1, 1).unwrap());
    let got: Vec<((usize, usize, usize), Vec<u8>)> = out.iter().map(parts).collect();
    let two = vec![1u8, 1];
    assert_eq!(
        got,
        vec![
            ((2, 1, 1), two.clone()),
            ((1, 2, 1), two.clone()),
            ((1, 1, 2), two.clone()),
            ((1, 1, 2), two.clone()),
            ((1, 2, 1), two.clone()),
            ((2, 1, 1), two.clone()),
        ]
    );
}

#[test]
fn expand_two_cubes() {
    let out = expand_cube(&Polycube::ones(2, 1, 1).unwrap());
    assert_eq!(out.len(), 10);
    assert_eq!(parts(&out[0]), ((3, 1, 1), vec![1, 1, 1]));
    assert_eq!(parts(&out[1]), ((2, 2, 1), vec![1, 1, 0, 1]));
    assert_eq!(parts(&out[9]), ((3, 1, 1), vec![1, 1, 1]));
    for c in &out {
        assert_eq!(c.to_vec().iter().filter(|v| **v == 1).count(), 3);
    }
}

#[test]
fn expand_fills_a_hole_and_grows_outward() {
    let p = cube(3, 1, 1, &[1, 0, 1]);
    let out = expand_cube(&p);
    let got: Vec<((usize, usize, usize), Vec<u8>)> = out.iter().map(parts).collect();
    assert_eq!(got.len(), 11);
    assert!(got.contains(&((3, 1, 1), vec![1, 1, 1])));
    assert_eq!(got[0], ((4, 1, 1), vec![1, 1, 0, 1]));
    assert_eq!(got[10], ((4, 1, 1), vec![1, 0, 1, 1]));
}

#[test]
fn expand_of_an_empty_grid_is_empty() {
    assert_eq!(expand_cube(&cube(2, 2, 1, &[0; 4])).len(), 0);
    assert_eq!(expand_cube(&cube(0, 0, 0, &[])).len(), 0);
}
