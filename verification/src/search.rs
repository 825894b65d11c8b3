//! The search: two frontiers, one from each end, grown a level at a time
//! in turn until they share a cube; then the path through that cube.

use crate::color::Color;
use crate::cube::{cube_lt, turned, turned_all, RubiksCube};
use crate::expand::{expand, FrontierBuild, CORES_N};
use crate::frontier::{
    decoded, lemma_decoded_disjoint, lemma_decoded_empty, lemma_decoded_insert, packed_set,
};
use crate::moves::{lemma_move_positions, move_at, Move};
use crate::order::{Comparison, TotalOrder};
use crate::packed::{Packing, RubiksCubeCompressedX2, RubiksCubeCompressedX3};
use crate::paths::{
    fits_first, lemma_first_fit_is, lemma_frontiers_meet, lemma_level_step, lemma_level_zero,
    lemma_meeting_is, lemma_reachable_back, lemma_shortest_found, lemma_turned_all_concat,
    lemma_turned_all_one, level, no_path_within, reachable_in, solved_within,
};
use crate::sorted_vec::SortedVec;
use vstd::prelude::*;

verus! {

/// How deep the named solvers search before they give up.
pub const DEFAULT_MAX_DEPTH: u32 = 26;

/// The first turn of the listing that carries `start` to `goal`; `None`
/// just when no single turn does.
pub fn single_move(start: &RubiksCube, goal: &RubiksCube) -> (found: Option<Move>)
    ensures
        match found {
            Some(m) => fits_first(start@, goal@, m.position()),
            None => !reachable_in(start@, goal@, 1),
        },
{
    let kid_cubes = start.juxt();
    let mut j: usize = 0;
    while j < 18
        invariant
            j <= 18,
            forall|k: int| 0 <= k < 18 ==> (#[trigger] kid_cubes[k])@ == turned(start@, move_at(k)),
            forall|k: int| 0 <= k < j ==> turned(start@, #[trigger] move_at(k)) != goal@,
        decreases 18 - j,
    {
        match kid_cubes[j].compare(goal) {
            Comparison::Equal => {
                let m = Move::from_index(j);
                proof {
                    lemma_move_positions(m);
                }
                return Some(m);
            },
            _ => {},
        }
        j += 1;
    }
    proof {
        if reachable_in(start@, goal@, 1) {
            let moves = choose|moves: Seq<Move>|
                moves.len() == 1 && #[trigger] turned_all(start@, moves) == goal@;
            let m = moves.last();
            assert(moves =~= seq![m]);
            lemma_turned_all_one(start@, m);
            lemma_move_positions(m);
            assert(turned(start@, move_at(m.position())) == goal@);
        }
    }
    None
}

/// What the two frontiers stand for while the search runs.
pub open spec fn frontiers_at<S: Packing>(
    start: Seq<Color>,
    goal: Seq<Color>,
    left: SortedVec<S>,
    right: SortedVec<S>,
    left_moves: int,
    right_moves: int,
) -> bool {
    &&& left.wf()
    &&& right.wf()
    &&& packed_set(left.contents())
    &&& packed_set(right.contents())
    &&& decoded(left.contents()) == level(start, left_moves)
    &&& decoded(right.contents()) == level(goal, right_moves)
    &&& 0 <= right_moves <= left_moves <= right_moves + 1
}

/// The frontier that holds one cube and nothing else.
pub fn seed<S: Packing>(root: &RubiksCube) -> (frontier: SortedVec<S>)
    ensures
        frontier.wf(),
        packed_set(frontier.contents()),
        decoded(frontier.contents()) == level(root@, 0),
{
    let packed = S::pack(root);
    let frontier = SortedVec::from_array([packed]);
    proof {
        let one = [packed];
        assert(one@ =~= Seq::<S>::empty().push(packed));
        Seq::<S>::empty().lemma_push_to_set_commute(packed);
        assert(Seq::<S>::empty().to_set() =~= Set::<S>::empty());
        lemma_decoded_empty::<S>();
        lemma_decoded_insert(Set::<S>::empty(), packed);
        lemma_level_zero(root@);
    }
    frontier
}

/// A shortest sequence of turns that carries `start` to `goal`, if one
/// of `max_depth` turns or fewer exists; `None` just when none does.
///
/// `S` is the form in which the frontiers hold their cubes, `build` the
/// way a frontier is put in order, `workers` the number of threads a level
/// is spread over. None of the three shows in the answer.
pub fn solve<S: Packing + Send + Sync>(
    start: &RubiksCube,
    goal: &RubiksCube,
    build: FrontierBuild,
    workers: usize,
    max_depth: u32,
) -> (path: Option<Vec<Move>>)
    ensures
        solved_within(start@, goal@, path, max_depth as int),
        start@ == goal@ ==> path is Some,
    decreases max_depth,
{
    match start.compare(goal) {
        Comparison::Equal => {
            let moves: Vec<Move> = Vec::new();
            proof {
                assert(turned_all(start@, moves@) == goal@);
            }
            return Some(moves);
        },
        _ => {},
    }
    let mut left: SortedVec<S> = seed(start);
    let mut right: SortedVec<S> = seed(goal);
    let mut left_moves: u32 = 0;
    let mut right_moves: u32 = 0;
    let mut middle: Option<S> = None;
    proof {
        assert forall|moves: Seq<Move>| moves.len() <= 0 implies #[trigger] turned_all(
            start@,
            moves,
        ) != goal@ by {
            assert(turned_all(start@, moves) == start@);
        }
    }
    while middle.is_none() && right_moves < max_depth - left_moves
        invariant
            frontiers_at(start@, goal@, left, right, left_moves as int, right_moves as int),
            left_moves + right_moves <= max_depth,
            middle is None ==> no_path_within(start@, goal@, left_moves + right_moves),
            middle is Some ==> {
                &&& no_path_within(start@, goal@, left_moves + right_moves - 1)
                &&& left@.contains(middle->0)
                &&& right@.contains(middle->0)
                &&& forall|y: S|
                    left@.contains(y) && right@.contains(y) ==> (middle->0).lt(y) || middle->0 == y
            },
        decreases max_depth - left_moves - right_moves,
    {
        if left_moves == right_moves {
            proof {
                lemma_level_step(start@, left_moves as int);
            }
            left = expand(left, build, workers);
            left_moves = left_moves + 1;
        } else {
            proof {
                lemma_level_step(goal@, right_moves as int);
            }
            right = expand(right, build, workers);
            right_moves = right_moves + 1;
        }
        middle = left.intersection_with(&right);
        proof {
            if middle is None {
                lemma_decoded_disjoint(left.contents(), right.contents());
                lemma_frontiers_meet(start@, goal@, left_moves as int, right_moves as int);
                assert forall|moves: Seq<Move>|
                    moves.len() <= left_moves + right_moves implies #[trigger] turned_all(
                    start@,
                    moves,
                ) != goal@ by {
                    if moves.len() == left_moves + right_moves && turned_all(start@, moves)
                        == goal@ {
                        assert(reachable_in(start@, goal@, left_moves + right_moves));
                    }
                }
            }
        }
    }
    let mid_packed = match middle {
        Some(mid_packed) => mid_packed,
        None => {
            return None;
        },
    };
    proof {
        assert(left.contents().contains(mid_packed));
        assert(right.contents().contains(mid_packed));
        assert(decoded(left.contents()).contains(mid_packed.facelets()));
        assert(decoded(right.contents()).contains(mid_packed.facelets()));
    }
    let mid = mid_packed.unpack();
    let ghost d = left_moves + right_moves;
    proof {
        assert(reachable_in(start@, mid@, left_moves as int));
        assert(reachable_in(goal@, mid@, right_moves as int));
        lemma_reachable_back(goal@, mid@, right_moves as int);
        assert forall|other: Seq<Color>|
            level(start@, left_moves as int).contains(other) && #[trigger] level(
                goal@,
                right_moves as int,
            ).contains(other) implies cube_lt(mid@, other) || mid@ == other by {
            let y = choose|y: S| #[trigger] left.contents().contains(y) && y.facelets() == other;
            let z = choose|z: S| #[trigger] right.contents().contains(z) && z.facelets() == other;
            S::lemma_facelets_injective(y, z);
            assert(left@.contains(y) && right@.contains(y));
            S::lemma_order_by_facelets(mid_packed, y);
        }
        lemma_meeting_is(start@, goal@, left_moves as int, right_moves as int, mid@);
    }
    if left_moves == 1 && right_moves == 0 {
        proof {
            assert(level(goal@, 0).contains(mid@));
            lemma_level_zero(goal@);
            assert(mid@ == goal@);
        }
        match single_move(start, goal) {
            Some(m) => {
                let mut moves: Vec<Move> = Vec::new();
                moves.push(m);
                proof {
                    assert(moves@ =~= seq![m]);
                    lemma_turned_all_one(start@, m);
                    lemma_shortest_found(start@, goal@, moves@, 1);
                    lemma_move_positions(m);
                    lemma_first_fit_is(start@, goal@, m.position());
                }
                Some(moves)
            },
            None => {
                proof {
                    assert(false);
                }
                None
            },
        }
    } else {
        let first = solve::<S>(start, &mid, build, workers, left_moves);
        let second = solve::<S>(&mid, goal, build, workers, right_moves);
        proof {
            let x = choose|moves: Seq<Move>|
                moves.len() == left_moves && #[trigger] turned_all(start@, moves) == mid@;
            let y = choose|moves: Seq<Move>|
                moves.len() == right_moves && #[trigger] turned_all(mid@, moves) == goal@;
            assert(first is Some);
            assert(second is Some);
        }
        match (first, second) {
            (Some(first), Some(second)) => {
                let mut moves = first;
                let mut tail = second;
                let ghost x = moves@;
                let ghost y = tail@;
                moves.append(&mut tail);
                proof {
                    lemma_turned_all_concat(start@, x, y);
                    lemma_shortest_found(start@, goal@, moves@, d);
                    assert(x.len() == left_moves && y.len() == right_moves);
                    assert((d + 1) / 2 == left_moves && d / 2 == right_moves);
                }
                Some(moves)
            },
            _ => None,
        }
    }
}

impl RubiksCube {
    /// Solves with frontiers that hold the cubes themselves,
    /// each child inserted into a sorted set.
    pub fn solve_uncompressed_sorted_vec(&self, other: &RubiksCube) -> (path: Option<Vec<Move>>)
        ensures
            solved_within(self@, other@, path, DEFAULT_MAX_DEPTH as int),
    {
        solve::<RubiksCube>(self, other, FrontierBuild::SortedInsert, CORES_N, DEFAULT_MAX_DEPTH)
    }

    /// Solves with frontiers that hold the cubes themselves,
    /// the children gathered, then sorted once.
    pub fn solve_uncompressed_unsorted_vec_without_capacity(&self, other: &RubiksCube) -> (path:
        Option<Vec<Move>>)
        ensures
            solved_within(self@, other@, path, DEFAULT_MAX_DEPTH as int),
    {
        solve::<RubiksCube>(self, other, FrontierBuild::SortAfter, CORES_N, DEFAULT_MAX_DEPTH)
    }

    /// Solves with frontiers that hold the cubes themselves,
    /// the children gathered into room set aside, then sorted once.
    pub fn solve_uncompressed_unsorted_vec_with_capacity(&self, other: &RubiksCube) -> (path:
        Option<Vec<Move>>)
        ensures
            solved_within(self@, other@, path, DEFAULT_MAX_DEPTH as int),
    {
        solve::<RubiksCube>(
            self,
            other,
            FrontierBuild::SortAfterReserved,
            CORES_N,
            DEFAULT_MAX_DEPTH,
        )
    }

    /// Solves with frontiers that hold cubes packed two facelets to a byte,
    /// each child inserted into a sorted set.
    pub fn solve_compressed_x2_sorted_vec(&self, other: &RubiksCube) -> (path: Option<Vec<Move>>)
        ensures
            solved_within(self@, other@, path, DEFAULT_MAX_DEPTH as int),
    {
        solve::<RubiksCubeCompressedX2>(
            self,
            other,
            FrontierBuild::SortedInsert,
            CORES_N,
            DEFAULT_MAX_DEPTH,
        )
    }

    /// Solves with frontiers that hold cubes packed two facelets to a byte,
    /// the children gathered, then sorted once.
    pub fn solve_compressed_x2_unsorted_vec_without_capacity(&self, other: &RubiksCube) -> (path:
        Option<Vec<Move>>)
        ensures
            solved_within(self@, other@, path, DEFAULT_MAX_DEPTH as int),
    {
        solve::<RubiksCubeCompressedX2>(
            self,
            other,
            FrontierBuild::SortAfter,
            CORES_N,
            DEFAULT_MAX_DEPTH,
        )
    }

    /// Solves with frontiers that hold cubes packed two facelets to a byte,
    /// the children gathered into room set aside, then sorted once.
    pub fn solve_compressed_x2_unsorted_vec_with_capacity(&self, other: &RubiksCube) -> (path:
        Option<Vec<Move>>)
        ensures
            solved_within(self@, other@, path, DEFAULT_MAX_DEPTH as int),
    {
        solve::<RubiksCubeCompressedX2>(
            self,
            other,
            FrontierBuild::SortAfterReserved,
            CORES_N,
            DEFAULT_MAX_DEPTH,
        )
    }

    /// Solves with frontiers that hold cubes packed three facelets to a byte,
    /// each child inserted into a sorted set.
    pub fn solve_compressed_x3_sorted_vec(&self, other: &RubiksCube) -> (path: Option<Vec<Move>>)
        ensures
            solved_within(self@, other@, path, DEFAULT_MAX_DEPTH as int),
    {
        solve::<RubiksCubeCompressedX3>(
            self,
            other,
            FrontierBuild::SortedInsert,
            CORES_N,
            DEFAULT_MAX_DEPTH,
        )
    }

    /// Solves with frontiers that hold cubes packed three facelets to a byte,
    /// the children gathered, then sorted once.
    pub fn solve_compressed_x3_unsorted_vec_without_capacity(&self, other: &RubiksCube) -> (path:
        Option<Vec<Move>>)
        ensures
            solved_within(self@, other@, path, DEFAULT_MAX_DEPTH as int),
    {
        solve::<RubiksCubeCompressedX3>(
            self,
            other,
            FrontierBuild::SortAfter,
            CORES_N,
            DEFAULT_MAX_DEPTH,
        )
    }

    /// Solves with frontiers that hold cubes packed three facelets to a byte,
    /// the children gathered into room set aside, then sorted once.
    pub fn solve_compressed_x3_unsorted_vec_with_capacity(&self, other: &RubiksCube) -> (path:
        Option<Vec<Move>>)
        ensures
            solved_within(self@, other@, path, DEFAULT_MAX_DEPTH as int),
    {
        solve::<RubiksCubeCompressedX3>(
            self,
            other,
            FrontierBuild::SortAfterReserved,
            CORES_N,
            DEFAULT_MAX_DEPTH,
        )
    }
}

} // verus!
