use cubes::{generate_polycubes, Driver, Phase, Polycube, Reply, Request};

fn parts(p: &Polycube) -> ((usize, usize, usize), Vec<u8>) {
    (p.dim(), p.to_vec())
}

fn all_parts(v: &Vec<Polycube>) -> Vec<((usize, usize, usize), Vec<u8>)> {
    v.iter().map(parts).collect()
}

#[test]
fn run_without_store_is_finished_at_once() {
    let d = Driver::new(4, false);
    assert!(matches!(d.request(), Request::Done));
    assert_eq!(all_parts(&d.into_polycubes()), all_parts(&generate_polycubes(4)));
}

#[test]
fn small_generations_are_never_looked_up() {
    for n in 0u8..3 {
        let d = Driver::new(n, true);
        assert!(matches!(d.request(), Request::Done));
        assert_eq!(d.into_polycubes().len(), generate_polycubes(n).len());
    }
}

#[test]
fn run_with_an_empty_store_builds_and_stores_each_generation() {
    let mut d = Driver::new(5, true);
    assert!(matches!(d.request(), Request::Load(5)));
    assert!(matches!(d.step(Reply::Missing), Request::Load(4)));
    assert!(matches!(d.step(Reply::Missing), Request::Load(3)));
    assert!(matches!(d.step(Reply::Missing), Request::Save(3)));
    assert_eq!(d.polycubes().len(), 2);
    assert!(matches!(d.step(Reply::Saved), Request::Save(4)));
    assert_eq!(d.polycubes().len(), 8);
    assert!(matches!(d.step(Reply::Saved), Request::Save(5)));
    assert_eq!(d.polycubes().len(), 29);
    assert!(matches!(d.step(Reply::Saved), Request::Done));
    assert!(matches!(d.step(Reply::Saved), Request::Done));
    assert_eq!(all_parts(&d.into_polycubes()), all_parts(&generate_polycubes(5)));
}

#[test]
fn stored_generation_asked_for_is_handed_out_as_it_is() {
    let mut d = Driver::new(3, true);
    assert!(matches!(d.request(), Request::Load(3)));
    let stored = vec![Polycube::ones(3, 1, 1).unwrap()];
    assert!(matches!(d.step(Reply::Loaded(stored)), Request::Done));
    assert_eq!(all_parts(&d.into_polycubes()), vec![((3, 1, 1), vec![1u8, 1, 1])]);
}

#[test]
fn run_goes_on_from_a_stored_generation() {
    let mut d = Driver::new(5, true);
    assert!(matches!(d.step(Reply::Missing), Request::Load(4)));
    assert!(matches!(d.step(Reply::Loaded(generate_polycubes(4))), Request::Save(5)));
    assert!(matches!(d.step(Reply::Saved), Request::Done));
    assert_eq!(all_parts(&d.into_polycubes()), all_parts(&generate_polycubes(5)));
}

#[test]
fn answer_to_what_was_not_asked_changes_nothing() {
    let mut d = Driver::new(4, true);
    assert!(matches!(d.step(Reply::Saved), Request::Load(4)));
    assert!(matches!(d.step(Reply::Missing), Request::Load(3)));
    assert!(matches!(d.step(Reply::Missing), Request::Save(3)));
    assert!(matches!(d.step(Reply::Missing), Request::Save(3)));
    assert!(matches!(d.step(Reply::Loaded(Vec::new())), Request::Save(3)));
    assert_eq!(d.polycubes().len(), 2);
}

#[test]
fn run_is_stuck_on_shapes_too_large_to_grow() {
    let mut d = Driver::new(4, true);
    let huge = Polycube::from_shape_vec(isize::MAX as usize, 0, 0, Vec::new()).unwrap();
    assert!(matches!(d.step(Reply::Missing), Request::Load(3)));
    assert!(matches!(d.step(Reply::Loaded(vec![huge])), Request::Fail));
    assert!(matches!(d.phase, Phase::Stuck));
    assert!(matches!(d.step(Reply::Saved), Request::Fail));
}
