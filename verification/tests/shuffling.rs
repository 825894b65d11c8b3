use rand::rng;
use rubiks_solver::cube::RubiksCube;
use rubiks_solver::moves::Move;

#[test]
fn shuffle_returns_the_turns_it_made() {
    let mut random = rng();
    let mut rc = RubiksCube::new();
    let moves = rc.shuffle(40, &mut random);
    assert_eq!(moves.len(), 40);
    let mut replayed = RubiksCube::new();
    replayed.make_moves(moves);
    assert_eq!(replayed, rc);
}

#[test]
fn shuffle_of_no_turns_changes_nothing() {
    let mut random = rng();
    let mut rc = RubiksCube::new();
    assert_eq!(rc.shuffle(0, &mut random), Vec::<Move>::new());
    assert_eq!(rc, RubiksCube::new());
    assert_eq!(RubiksCube::new_shuffled(0, &mut random), RubiksCube::new());
}

#[test]
fn shuffle_once_makes_the_turn_it_returns() {
    let mut random = rng();
    for _ in 0..50 {
        let mut rc = RubiksCube::new();
        let m = rc.shuffle_once(&mut random);
        assert_eq!(rc, RubiksCube::new().moved(m));
    }
}

#[test]
fn shuffle_draws_more_than_one_turn() {
    let mut random = rng();
    let mut rc = RubiksCube::new();
    let moves = rc.shuffle(400, &mut random);
    assert!(moves.iter().any(|m| *m != moves[0]));
    assert!(moves.iter().any(|m| *m != Move::Front));
    assert!(moves.iter().any(|m| *m != Move::Zs));
}

#[test]
fn a_short_shuffle_is_solved_within_its_length() {
    let mut random = rng();
    let mut rc = RubiksCube::new();
    let moves = rc.shuffle(4, &mut random);
    let path = rc.solve_compressed_x3_unsorted_vec_without_capacity(&RubiksCube::new()).unwrap();
    assert!(path.len() <= moves.len());
    rc.make_moves(path);
    assert_eq!(rc, RubiksCube::new());
}
