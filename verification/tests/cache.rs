use cubes::{generate_polycubes, get_cache, save_cache, Error, Polycube};

fn parts(p: &Polycube) -> ((usize, usize, usize), Vec<u8>) {
    (p.dim(), p.to_vec())
}

#[test]
fn stored_generation_reads_back_as_it_was() {
    let shapes = generate_polycubes(4);
    let bin = save_cache(&shapes).unwrap();
    let back = get_cache(&bin).unwrap();
    let before: Vec<((usize, usize, usize), Vec<u8>)> = shapes.iter().map(parts).collect();
    let after: Vec<((usize, usize, usize), Vec<u8>)> = back.iter().map(parts).collect();
    assert_eq!(before, after);
}

#[test]
fn stored_orientation_is_kept() {
    let shapes = vec![
        Polycube::from_shape_vec(1, 2, 3, vec![1, 0, 1, 1, 1, 0]).unwrap(),
        Polycube::from_shape_vec(3, 2, 1, vec![1, 0, 1, 1, 1, 0]).unwrap(),
    ];
    let back = get_cache(&save_cache(&shapes).unwrap()).unwrap();
    assert_eq!(back.len(), 2);
    assert_eq!(parts(&back[0]), ((1, 2, 3), vec![1, 0, 1, 1, 1, 0]));
    assert_eq!(parts(&back[1]), ((3, 2, 1), vec![1, 0, 1, 1, 1, 0]));
}

#[test]
fn empty_generation_reads_back_empty() {
    let bin = save_cache(&Vec::new()).unwrap();
    assert_eq!(bin, vec![0u8; 8]);
    assert_eq!(get_cache(&bin).unwrap().len(), 0);
}

#[test]
fn stored_bytes_of_the_unit_cube() {
    let bin = save_cache(&vec![Polycube::ones(1, 1, 1).unwrap()]).unwrap();
    let mut expected: Vec<u8> = Vec::new();
    expected.extend_from_slice(&1u64.to_le_bytes());
    expected.push(1);
    for _ in 0..3 {
        expected.extend_from_slice(&1u64.to_le_bytes());
    }
    expected.extend_from_slice(&1u64.to_le_bytes());
    expected.push(1);
    assert_eq!(bin, expected);
}

#[test]
fn truncated_bytes_are_refused() {
    let mut bin = save_cache(&generate_polycubes(3)).unwrap();
    bin.truncate(bin.len() - 1);
    assert!(matches!(get_cache(&bin), Err(Error::Bincode(_))));
}

#[test]
fn bytes_of_something_else_are_refused() {
    assert!(matches!(get_cache(&[1, 2, 3]), Err(Error::Bincode(_))));
    assert!(matches!(get_cache(&[]), Err(Error::Bincode(_))));
}

#[test]
fn wrong_cell_count_is_refused() {
    let mut bin = save_cache(&vec![Polycube::ones(2, 1, 1).unwrap()]).unwrap();
    bin[9] = 3;
    assert!(matches!(get_cache(&bin), Err(Error::Bincode(_))));
}
