use rubiks_solver::cube::RubiksCube;
use rubiks_solver::expand::{
    chunk_size_for, expand, expand_chunk_reserved, expand_chunk_sorted, expand_chunk_unsorted,
    flatten, FrontierBuild,
};
use rubiks_solver::moves::{Move, ALL_MOVES};
use rubiks_solver::packed::{RubiksCubeCompressedX2, RubiksCubeCompressedX3};
use rubiks_solver::search::{seed, single_move, solve};
use rubiks_solver::sorted_vec::SortedVec;

const BUILDS: [FrontierBuild; 3] =
    [FrontierBuild::SortedInsert, FrontierBuild::SortAfter, FrontierBuild::SortAfterReserved];

fn after(moves: &[Move]) -> RubiksCube {
    let mut rc = RubiksCube::new();
    rc.make_moves(moves.to_vec());
    rc
}

fn replay(start: &RubiksCube, moves: &[Move]) -> RubiksCube {
    let mut rc = *start;
    rc.make_moves(moves.to_vec());
    rc
}

#[test]
fn front() {
    let mut rc = RubiksCube::new();
    rc.front_s();
    assert_eq!(Some(vec![Move::Front]), rc.solve_uncompressed_sorted_vec(&RubiksCube::new()))
}

#[test]
fn solved_to_one_turn_gives_that_turn() {
    for m in ALL_MOVES {
        let goal = after(&[m]);
        assert_eq!(
            RubiksCube::new().solve_uncompressed_sorted_vec(&goal),
            Some(vec![m]),
            "{m:?}"
        );
    }
}

#[test]
fn one_turn_is_solved_by_its_inverse() {
    for m in ALL_MOVES {
        let start = after(&[m]);
        assert_eq!(
            start.solve_compressed_x3_unsorted_vec_without_capacity(&RubiksCube::new()),
            Some(vec![m.inverted()]),
        );
    }
}

#[test]
fn same_start_and_goal_need_no_turns() {
    let solved = RubiksCube::new();
    assert_eq!(solved.solve_uncompressed_sorted_vec(&solved), Some(vec![]));
    let rc = after(&[Move::Right, Move::Top]);
    assert_eq!(rc.solve_compressed_x2_sorted_vec(&rc), Some(vec![]));
    assert_eq!(solve::<RubiksCube>(&rc, &rc, FrontierBuild::SortAfter, 1, 0), Some(vec![]));
}

#[test]
fn two_turns_are_solved_in_two() {
    let goal = after(&[Move::Right, Move::Top]);
    let path = RubiksCube::new().solve_uncompressed_sorted_vec(&goal).unwrap();
    assert_eq!(path.len(), 2);
    assert_eq!(replay(&RubiksCube::new(), &path), goal);
}

#[test]
fn turns_that_cancel_are_not_counted() {
    let goal = after(&[Move::Right, Move::Top, Move::TopS]);
    assert_eq!(RubiksCube::new().solve_uncompressed_sorted_vec(&goal), Some(vec![Move::Right]));
    // a turn of the whole cube and a face turn between it and its undoing are one face turn
    let goal = after(&[Move::X, Move::Top, Move::Xs]);
    assert_eq!(RubiksCube::new().solve_uncompressed_sorted_vec(&goal), Some(vec![Move::Front]));
}

#[test]
fn a_turn_of_the_whole_cube_is_one_turn() {
    for m in [Move::X, Move::Xs, Move::Y, Move::Ys, Move::Z, Move::Zs] {
        assert_eq!(RubiksCube::new().solve_compressed_x2_sorted_vec(&after(&[m])), Some(vec![m]));
    }
    // two opposite faces without the slice between them are two turns
    let goal = after(&[Move::LeftS, Move::Right]);
    assert_eq!(
        RubiksCube::new().solve_uncompressed_sorted_vec(&goal),
        Some(vec![Move::Right, Move::LeftS])
    );
}

#[test]
fn the_path_goes_through_the_first_cube_the_frontiers_share() {
    let start = RubiksCube::new();
    assert_eq!(
        start.solve_uncompressed_sorted_vec(&after(&[Move::Z, Move::Top, Move::RightS])),
        Some(vec![Move::Right, Move::BottomS, Move::Z])
    );
    assert_eq!(
        start.solve_compressed_x3_sorted_vec(&after(&[Move::Right, Move::Top])),
        Some(vec![Move::Right, Move::Top])
    );
}

#[test]
fn every_named_solver_finds_a_shortest_path() {
    let start = after(&[Move::Back, Move::LeftS]);
    let goal = after(&[Move::Front, Move::Top]);
    let named: [fn(&RubiksCube, &RubiksCube) -> Option<Vec<Move>>; 9] = [
        RubiksCube::solve_uncompressed_sorted_vec,
        RubiksCube::solve_uncompressed_unsorted_vec_without_capacity,
        RubiksCube::solve_uncompressed_unsorted_vec_with_capacity,
        RubiksCube::solve_compressed_x2_sorted_vec,
        RubiksCube::solve_compressed_x2_unsorted_vec_without_capacity,
        RubiksCube::solve_compressed_x2_unsorted_vec_with_capacity,
        RubiksCube::solve_compressed_x3_sorted_vec,
        RubiksCube::solve_compressed_x3_unsorted_vec_without_capacity,
        RubiksCube::solve_compressed_x3_unsorted_vec_with_capacity,
    ];
    let first = named[0](&start, &goal).unwrap();
    assert_eq!(first, vec![Move::Left, Move::BackS, Move::Front, Move::Top]);
    for solver in named {
        let path = solver(&start, &goal).unwrap();
        assert_eq!(path, first);
        assert_eq!(replay(&start, &path), goal);
    }
}

#[test]
fn five_turns_are_solved_in_five() {
    let goal = after(&[Move::Right, Move::Top, Move::Front, Move::LeftS, Move::Bottom]);
    let path =
        solve::<RubiksCubeCompressedX3>(&RubiksCube::new(), &goal, FrontierBuild::SortAfter, 4, 8)
            .unwrap();
    assert_eq!(path, vec![Move::Right, Move::Top, Move::Front, Move::LeftS, Move::Bottom]);
    assert_eq!(replay(&RubiksCube::new(), &path), goal);
}

#[test]
fn none_when_the_goal_lies_beyond_the_bound() {
    let goal = after(&[Move::Right, Move::Top, Move::Front]);
    let start = RubiksCube::new();
    for build in BUILDS {
        assert_eq!(solve::<RubiksCube>(&start, &goal, build, 1, 0), None);
        assert_eq!(solve::<RubiksCube>(&start, &goal, build, 1, 1), None);
        assert_eq!(solve::<RubiksCube>(&start, &goal, build, 3, 2), None);
        assert_eq!(solve::<RubiksCube>(&start, &goal, build, 3, 3).map(|p| p.len()), Some(3));
    }
}

#[test]
fn workers_and_builds_do_not_change_the_path() {
    let goal = after(&[Move::Z, Move::Top, Move::RightS]);
    let start = RubiksCube::new();
    let expected = solve::<RubiksCube>(&start, &goal, FrontierBuild::SortedInsert, 1, 6);
    assert_eq!(expected.as_ref().map(|p| p.len()), Some(3));
    for build in BUILDS {
        for workers in [0, 1, 2, 4, 7, 1000] {
            assert_eq!(solve::<RubiksCube>(&start, &goal, build, workers, 6), expected);
            assert_eq!(solve::<RubiksCubeCompressedX2>(&start, &goal, build, workers, 6), expected);
            assert_eq!(solve::<RubiksCubeCompressedX3>(&start, &goal, build, workers, 6), expected);
        }
    }
}

#[test]
fn single_move_finds_the_first_turn_that_fits() {
    let start = after(&[Move::Left]);
    assert_eq!(single_move(&start, &after(&[Move::Left, Move::Top])), Some(Move::Top));
    assert_eq!(single_move(&start, &RubiksCube::new()), Some(Move::LeftS));
    assert_eq!(single_move(&start, &start), None);
    assert_eq!(single_move(&start, &after(&[Move::Top, Move::Top])), None);
}

#[test]
fn seed_holds_the_root_alone() {
    let root = after(&[Move::Front]);
    let s: SortedVec<RubiksCube> = seed(&root);
    assert_eq!(s.items, vec![root]);
    let s: SortedVec<RubiksCubeCompressedX2> = seed(&root);
    assert_eq!(s.items, vec![root.to_compressed_x2()]);
}

#[test]
fn solved_cube_has_eighteen_children() {
    for build in BUILDS {
        for workers in [1, 4] {
            let next = expand(seed::<RubiksCube>(&RubiksCube::new()), build, workers);
            assert_eq!(next.len(), 18);
            let mut expected: Vec<RubiksCube> = RubiksCube::new().juxt().to_vec();
            expected.sort();
            assert_eq!(next.items, expected);
        }
    }
}

#[test]
fn expanding_in_four_chunks_gives_the_same_frontier() {
    let level1 = expand(seed::<RubiksCube>(&RubiksCube::new()), FrontierBuild::SortedInsert, 1);
    let level2 = expand(level1.clone(), FrontierBuild::SortedInsert, 1);
    assert_eq!(level2.len(), 198);
    assert!(level2.items.windows(2).all(|w| w[0] < w[1]));
    for build in BUILDS {
        for workers in [1, 2, 4, 5, 18, 19] {
            assert_eq!(expand(level1.clone(), build, workers).items, level2.items);
        }
    }
    let level3 = expand(level2.clone(), FrontierBuild::SortAfter, 1);
    assert_eq!(level3.len(), 1908);
    assert_eq!(expand(level2, FrontierBuild::SortedInsert, 4).items, level3.items);
}

#[test]
fn packed_frontiers_stand_for_the_same_cubes() {
    let root = RubiksCube::new();
    let plain = expand(seed::<RubiksCube>(&root), FrontierBuild::SortAfter, 3);
    let x2 = expand(seed::<RubiksCubeCompressedX2>(&root), FrontierBuild::SortAfter, 3);
    let x3 = expand(seed::<RubiksCubeCompressedX3>(&root), FrontierBuild::SortedInsert, 3);
    assert_eq!(x2.items.iter().map(|p| p.to_rc()).collect::<Vec<_>>(), plain.items);
    assert_eq!(x3.items.iter().map(|p| p.to_rc()).collect::<Vec<_>>(), plain.items);
}

#[test]
fn expand_of_nothing_is_nothing() {
    for build in BUILDS {
        for workers in [1, 4] {
            assert_eq!(expand(SortedVec::<RubiksCube>::new(), build, workers).len(), 0);
        }
    }
}

#[test]
fn chunk_expansion_lists_or_sorts_the_children() {
    let a = after(&[Move::Top]);
    let b = after(&[Move::Left]);
    let raw = expand_chunk_unsorted(vec![a, b]);
    assert_eq!(raw.len(), 36);
    assert_eq!(&raw[..18], &a.juxt()[..]);
    assert_eq!(&raw[18..], &b.juxt()[..]);
    assert_eq!(expand_chunk_reserved(vec![a, b]), raw);
    let sorted = expand_chunk_sorted(vec![a, b]);
    assert_eq!(sorted.items, SortedVec::from_vec(raw).items);
    // the solved cube is a child of both
    assert_eq!(sorted.len(), 35);
}

#[test]
fn flatten_joins_in_order() {
    assert_eq!(flatten(vec![vec![3u8, 1], vec![], vec![2], vec![1, 1]]), vec![3, 1, 2, 1, 1]);
    assert_eq!(flatten(Vec::<Vec<u8>>::new()), Vec::<u8>::new());
}

#[test]
fn chunk_size_is_the_length_over_the_workers_rounded_up() {
    assert_eq!(chunk_size_for(10, 4), Some(3));
    assert_eq!(chunk_size_for(12, 4), Some(3));
    assert_eq!(chunk_size_for(13, 4), Some(4));
    assert_eq!(chunk_size_for(3, 10), Some(1));
    assert_eq!(chunk_size_for(18, 10), Some(2));
    assert_eq!(chunk_size_for(5, 1), None);
    assert_eq!(chunk_size_for(5, 0), None);
    assert_eq!(chunk_size_for(0, 4), None);
}
