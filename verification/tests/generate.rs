use cubes::{cube_exists_rle, generate_polycubes, next_generation, rle, FingerprintSet, Polycube};

fn parts(p: &Polycube) -> ((usize, usize, usize), Vec<u8>) {
    (p.dim(), p.to_vec())
}

#[test]
fn no_cubes_make_no_shape() {
    assert_eq!(generate_polycubes(0).len(), 0);
}

#[test]
fn one_cube_makes_the_unit_cube() {
    let all = generate_polycubes(1);
    assert_eq!(all.len(), 1);
    assert_eq!(parts(&all[0]), ((1, 1, 1), vec![1]));
}

#[test]
fn two_cubes_make_one_shape() {
    let all = generate_polycubes(2);
    assert_eq!(all.len(), 1);
    assert_eq!(parts(&all[0]), ((2, 1, 1), vec![1, 1]));
}

#[test]
fn three_cubes_make_two_shapes() {
    let all = generate_polycubes(3);
    assert_eq!(all.len(), 2);
    assert_eq!(parts(&all[0]), ((3, 1, 1), vec![1, 1, 1]));
    assert_eq!(parts(&all[1]), ((2, 2, 1), vec![1, 1, 0, 1]));
}

#[test]
fn four_cubes_make_eight_shapes() {
    assert_eq!(generate_polycubes(4).len(), 8);
}

#[test]
fn five_cubes_make_twenty_nine_shapes() {
    assert_eq!(generate_polycubes(5).len(), 29);
}

#[test]
fn six_cubes_make_one_hundred_sixty_six_shapes() {
    assert_eq!(generate_polycubes(6).len(), 166);
}

#[test]
fn every_shape_has_as_many_cubes_as_asked() {
    for n in 1u8..=5 {
        for p in generate_polycubes(n) {
            let cells = p.to_vec();
            assert!(cells.iter().all(|v| *v <= 1));
            assert_eq!(cells.iter().filter(|v| **v == 1).count(), n as usize);
        }
    }
}

#[test]
fn no_two_shapes_are_rotations_of_each_other() {
    for n in 3u8..=5 {
        let all = generate_polycubes(n);
        for (i, a) in all.iter().enumerate() {
            let mut set = FingerprintSet::new();
            set.insert(rle(a));
            for (j, b) in all.iter().enumerate() {
                assert_eq!(cube_exists_rle(b, &set), i == j);
            }
        }
    }
}

#[test]
fn next_generation_follows_the_one_before() {
    let three = next_generation(&generate_polycubes(2));
    let expected: Vec<((usize, usize, usize), Vec<u8>)> =
        generate_polycubes(3).iter().map(parts).collect();
    let got: Vec<((usize, usize, usize), Vec<u8>)> = three.iter().map(parts).collect();
    assert_eq!(got, expected);
    assert_eq!(next_generation(&three).len(), 8);
    assert_eq!(next_generation(&Vec::new()).len(), 0);
}

#[test]
fn next_generation_drops_rotations_of_shapes_kept_before() {
    let base = vec![Polycube::ones(1, 1, 1).unwrap(), Polycube::ones(1, 1, 1).unwrap()];
    let out = next_generation(&base);
    assert_eq!(out.len(), 1);
    assert_eq!(parts(&out[0]), ((2, 1, 1), vec![1, 1]));
}

fn cube(nx: usize, ny: usize, nz: usize, cells: &[u8]) -> Polycube {
    Polycube::from_shape_vec(nx, ny, nz, cells.to_vec()).unwrap()
}

fn tetracubes() -> Vec<Polycube> {
    vec![
        Polycube::ones(4, 1, 1).unwrap(),
        Polycube::ones(2, 2, 1).unwrap(),
        cube(3, 2, 1, &[1, 0, 1, 0, 1, 1]),
        cube(3, 2, 1, &[1, 0, 1, 1, 1, 0]),
        cube(3, 2, 1, &[1, 0, 1, 1, 0, 1]),
        cube(2, 2, 2, &[1, 1, 1, 0, 1, 0, 0, 0]),
        cube(2, 2, 2, &[1, 0, 0, 0, 1, 0, 1, 1]),
        cube(2, 2, 2, &[1, 0, 1, 1, 1, 0, 0, 0]),
    ]
}

#[test]
fn every_shape_of_four_cubes_is_generated_once() {
    let all = generate_polycubes(4);
    for shape in tetracubes() {
        let mut matches = 0;
        for member in &all {
            let mut set = FingerprintSet::new();
            set.insert(rle(member));
            if cube_exists_rle(&shape, &set) {
                matches += 1;
            }
        }
        assert_eq!(matches, 1);
    }
}

#[test]
fn shapes_of_four_cubes_differ_from_each_other() {
    let shapes = tetracubes();
    for (i, a) in shapes.iter().enumerate() {
        let mut set = FingerprintSet::new();
        set.insert(rle(a));
        for (j, b) in shapes.iter().enumerate() {
            assert_eq!(cube_exists_rle(b, &set), i == j);
        }
    }
}
