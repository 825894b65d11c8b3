//! Paths of turns: what a sequence of turns makes of a cube, which cubes
//! lie how many turns apart, and which path the search gives.

use crate::color::Color;
use crate::cube::{
    cube_key, cube_lt, lemma_turn_undone, lemma_turned_len, solved, turned, turned_all,
};
use crate::frontier::{children, kids};
use crate::moves::{move_at, Move};
use crate::order::{lemma_lex_irreflexive, lemma_lex_transitive};
use vstd::prelude::*;

verus! {

/// Some sequence of exactly `n` turns carries `a` to `b`.
pub open spec fn reachable_in(a: Seq<Color>, b: Seq<Color>, n: int) -> bool {
    exists|moves: Seq<Move>| moves.len() == n && #[trigger] turned_all(a, moves) == b
}

/// The cubes that sequences of exactly `n` turns make of `root`.
pub open spec fn level(root: Seq<Color>, n: int) -> Set<Seq<Color>> {
    Set::new(|c: Seq<Color>| reachable_in(root, c, n))
}

/// No sequence of `n` turns or fewer carries `a` to `b`.
pub open spec fn no_path_within(a: Seq<Color>, b: Seq<Color>, n: int) -> bool {
    forall|moves: Seq<Move>| moves.len() <= n ==> #[trigger] turned_all(a, moves) != b
}

/// `moves` carries `a` to `b`, and no shorter sequence of turns does.
pub open spec fn is_shortest(a: Seq<Color>, b: Seq<Color>, moves: Seq<Move>) -> bool {
    &&& turned_all(a, moves) == b
    &&& forall|other: Seq<Move>| #[trigger] turned_all(a, other) == b ==> moves.len() <= other.len()
}

/// The turns that undo a sequence of turns: the inverses, last first.
pub open spec fn undone(moves: Seq<Move>) -> Seq<Move> {
    Seq::new(moves.len(), |i: int| moves[moves.len() - 1 - i].inverse())
}

/// Making one sequence of turns and then another is making the two in a row.
pub proof fn lemma_turned_all_concat(a: Seq<Color>, x: Seq<Move>, y: Seq<Move>)
    ensures
        turned_all(a, x + y) == turned_all(turned_all(a, x), y),
    decreases y.len(),
{
    if y.len() == 0 {
        assert(x + y =~= x);
    } else {
        lemma_turned_all_concat(a, x, y.drop_last());
        assert((x + y).drop_last() =~= x + y.drop_last());
        assert((x + y).last() == y.last());
    }
}

/// A sequence of one turn is that turn.
pub proof fn lemma_turned_all_one(a: Seq<Color>, m: Move)
    ensures
        turned_all(a, seq![m]) == turned(a, m),
{
    let one = seq![m];
    assert(one.drop_last() =~= Seq::<Move>::empty());
    assert(turned_all(a, one.drop_last()) == a);
    assert(one.last() == m);
}

/// Turns keep the number of facelets.
pub proof fn lemma_turned_all_len(a: Seq<Color>, moves: Seq<Move>)
    requires
        a.len() == 54,
    ensures
        turned_all(a, moves).len() == 54,
    decreases moves.len(),
{
    if moves.len() > 0 {
        lemma_turned_all_len(a, moves.drop_last());
        lemma_turned_len(turned_all(a, moves.drop_last()), moves.last());
    }
}

/// A sequence of turns followed by the turns that undo it leaves the cube
/// as it was.
pub proof fn lemma_turned_all_undone(a: Seq<Color>, moves: Seq<Move>)
    requires
        a.len() == 54,
    ensures
        undone(moves).len() == moves.len(),
        turned_all(turned_all(a, moves), undone(moves)) == a,
    decreases moves.len(),
{
    if moves.len() == 0 {
        assert(undone(moves) =~= Seq::<Move>::empty());
    } else {
        let front = moves.drop_last();
        let m = moves.last();
        let mid = turned_all(a, front);
        lemma_turned_all_len(a, front);
        lemma_turn_undone(mid, m);
        lemma_turned_all_undone(a, front);
        let first = seq![m.inverse()];
        assert(undone(moves) =~= first + undone(front));
        lemma_turned_all_concat(turned_all(a, moves), first, undone(front));
        lemma_turned_all_one(turned_all(a, moves), m.inverse());
    }
}

/// The one cube that no turns make of a cube is the cube itself.
pub proof fn lemma_level_zero(root: Seq<Color>)
    ensures
        level(root, 0) == Set::<Seq<Color>>::empty().insert(root),
{
    let a = level(root, 0);
    let b = Set::<Seq<Color>>::empty().insert(root);
    assert forall|c: Seq<Color>| a.contains(c) <==> b.contains(c) by {
        if a.contains(c) {
            let moves = choose|moves: Seq<Move>|
                moves.len() == 0 && #[trigger] turned_all(root, moves) == c;
        }
        if c == root {
            assert(turned_all(root, Seq::<Move>::empty()) == root);
        }
    }
    assert(a =~= b);
}

/// The children of the cubes `n` turns away are the cubes `n + 1` turns away.
pub proof fn lemma_level_step(root: Seq<Color>, n: int)
    requires
        n >= 0,
    ensures
        children(level(root, n)) == level(root, n + 1),
{
    let a = children(level(root, n));
    let b = level(root, n + 1);
    assert forall|c: Seq<Color>| a.contains(c) <==> b.contains(c) by {
        if a.contains(c) {
            let p = choose|p: Seq<Color>| #[trigger]
                level(root, n).contains(p) && kids(p).contains(c);
            let front = choose|moves: Seq<Move>|
                moves.len() == n && #[trigger] turned_all(root, moves) == p;
            let m = choose|m: Move| c == #[trigger] turned(p, m);
            let moves = front.push(m);
            assert(moves.drop_last() =~= front);
            assert(turned_all(root, moves) == c);
        }
        if b.contains(c) {
            let moves = choose|moves: Seq<Move>|
                moves.len() == n + 1 && #[trigger] turned_all(root, moves) == c;
            let p = turned_all(root, moves.drop_last());
            assert(reachable_in(root, p, n));
            assert(level(root, n).contains(p));
            assert(c == turned(p, moves.last()));
            assert(kids(p).contains(c));
        }
    }
    assert(a =~= b);
}

/// What can be reached one way in `n` turns can be reached back in `n` turns.
pub proof fn lemma_reachable_back(a: Seq<Color>, b: Seq<Color>, n: int)
    requires
        a.len() == 54,
        reachable_in(a, b, n),
    ensures
        reachable_in(b, a, n),
        b.len() == 54,
{
    let moves = choose|moves: Seq<Move>| moves.len() == n && #[trigger] turned_all(a, moves) == b;
    lemma_turned_all_undone(a, moves);
    lemma_turned_all_len(a, moves);
    assert(turned_all(b, undone(moves)) == a);
}

/// The frontier `l` turns from `a` and the frontier `r` turns from `b`
/// share a cube just when `l + r` turns carry `a` to `b`.
pub proof fn lemma_frontiers_meet(a: Seq<Color>, b: Seq<Color>, l: int, r: int)
    requires
        a.len() == 54,
        b.len() == 54,
        l >= 0,
        r >= 0,
    ensures
        reachable_in(a, b, l + r) <==> !level(a, l).disjoint(level(b, r)),
{
    if reachable_in(a, b, l + r) {
        let moves = choose|moves: Seq<Move>|
            moves.len() == l + r && #[trigger] turned_all(a, moves) == b;
        let x = moves.take(l);
        let y = moves.skip(l);
        assert(moves =~= x + y);
        lemma_turned_all_concat(a, x, y);
        let c = turned_all(a, x);
        lemma_turned_all_len(a, x);
        assert(reachable_in(a, c, l));
        assert(turned_all(c, y) == b);
        assert(reachable_in(c, b, r));
        lemma_reachable_back(c, b, r);
        assert(level(a, l).contains(c) && level(b, r).contains(c));
    }
    if !level(a, l).disjoint(level(b, r)) {
        let c = choose|c: Seq<Color>| level(a, l).contains(c) && level(b, r).contains(c);
        let x = choose|moves: Seq<Move>| moves.len() == l && #[trigger] turned_all(a, moves) == c;
        lemma_reachable_back(b, c, r);
        let y = choose|moves: Seq<Move>| moves.len() == r && #[trigger] turned_all(c, moves) == b;
        lemma_turned_all_concat(a, x, y);
        assert(turned_all(a, x + y) == b);
    }
}

/// With no path of fewer than `d` turns, any path of `d` turns or fewer is
/// a shortest one.
pub proof fn lemma_shortest_found(a: Seq<Color>, b: Seq<Color>, moves: Seq<Move>, d: int)
    requires
        turned_all(a, moves) == b,
        moves.len() <= d,
        no_path_within(a, b, d - 1),
    ensures
        is_shortest(a, b, moves),
        moves.len() == d,
{
    assert forall|other: Seq<Move>| #[trigger] turned_all(a, other) == b implies moves.len()
        <= other.len() by {
        if other.len() < d {
            assert(other.len() <= d - 1);
        }
    }
}

/// `c` lies in the frontier `l` turns from `start` and in the frontier `r`
/// turns from `goal`, and no cube that does comes before it.
pub open spec fn is_least_meeting(
    start: Seq<Color>,
    goal: Seq<Color>,
    l: int,
    r: int,
    c: Seq<Color>,
) -> bool {
    &&& level(start, l).contains(c)
    &&& level(goal, r).contains(c)
    &&& forall|other: Seq<Color>|
        level(start, l).contains(other) && #[trigger] level(goal, r).contains(other) ==> cube_lt(
            c,
            other,
        ) || c == other
}

/// The first cube, in the order of cubes, that the two frontiers share.
pub open spec fn meeting(start: Seq<Color>, goal: Seq<Color>, l: int, r: int) -> Seq<Color> {
    choose|c: Seq<Color>| is_least_meeting(start, goal, l, r, c)
}

/// Turn `k` of the listing carries `start` to `goal`, and no earlier one does.
pub open spec fn fits_first(start: Seq<Color>, goal: Seq<Color>, k: int) -> bool {
    &&& 0 <= k < 18
    &&& turned(start, move_at(k)) == goal
    &&& forall|j: int| 0 <= j < k ==> turned(start, #[trigger] move_at(j)) != goal
}

/// The position of the first turn of the listing that carries `start` to `goal`.
pub open spec fn first_fit(start: Seq<Color>, goal: Seq<Color>) -> int {
    choose|k: int| fits_first(start, goal, k)
}

/// The path that the search gives between two cubes `d` turns apart: no
/// turns for the same cube; the first turn that fits for cubes one turn
/// apart; else the path to the first cube that the two frontiers share,
/// half way, and the path on from there.
pub open spec fn path_of(start: Seq<Color>, goal: Seq<Color>, d: nat) -> Seq<Move>
    decreases d,
{
    if d == 0 {
        Seq::empty()
    } else if d == 1 {
        seq![move_at(first_fit(start, goal))]
    } else {
        let l = (d + 1) / 2;
        let r = d / 2;
        let mid = meeting(start, goal, l as int, r as int);
        path_of(start, mid, l as nat) + path_of(mid, goal, r as nat)
    }
}

/// Two frontiers share at most one first cube.
pub proof fn lemma_meeting_is(start: Seq<Color>, goal: Seq<Color>, l: int, r: int, c: Seq<Color>)
    requires
        is_least_meeting(start, goal, l, r, c),
    ensures
        meeting(start, goal, l, r) == c,
{
    let m = meeting(start, goal, l, r);
    assert(is_least_meeting(start, goal, l, r, m));
    assert(level(goal, r).contains(c));
    assert(level(goal, r).contains(m));
    if m != c {
        lemma_lex_transitive(cube_key(c), cube_key(m), cube_key(c));
        lemma_lex_irreflexive(cube_key(c));
    }
}

/// At most one turn fits first.
pub proof fn lemma_first_fit_is(start: Seq<Color>, goal: Seq<Color>, k: int)
    requires
        fits_first(start, goal, k),
    ensures
        first_fit(start, goal) == k,
{
    let f = first_fit(start, goal);
    assert(fits_first(start, goal, f));
    if f < k {
        assert(turned(start, move_at(f)) != goal);
    }
    if k < f {
        assert(turned(start, move_at(k)) != goal);
    }
}

/// What a solver owes: a shortest path of `bound` turns or fewer where
/// there is one, which is empty just when start and goal are one cube,
/// and `None` just where there is no such path.
pub open spec fn solved_within(
    start: Seq<Color>,
    goal: Seq<Color>,
    path: Option<Vec<Move>>,
    bound: int,
) -> bool {
    match path {
        Some(moves) => {
            &&& is_shortest(start, goal, moves@)
            &&& moves@.len() <= bound
            &&& moves@.len() == 0 <==> start == goal
            &&& moves@ == path_of(start, goal, moves@.len())
        },
        None => no_path_within(start, goal, bound),
    }
}

/// A cube that turns can make of the solved cube.
pub open spec fn legal(c: Seq<Color>) -> bool {
    exists|moves: Seq<Move>| #[trigger] turned_all(solved(), moves) == c
}

/// What a solver gives for two cubes is one path, whatever the form in
/// which it holds its frontiers, its way of building them, the number of
/// its workers, and the bound it searches to.
pub proof fn lemma_solution_is_determined(
    start: Seq<Color>,
    goal: Seq<Color>,
    one: Option<Vec<Move>>,
    one_bound: int,
    other: Option<Vec<Move>>,
    other_bound: int,
)
    requires
        solved_within(start, goal, one, one_bound),
        solved_within(start, goal, other, other_bound),
        one is Some,
        other is Some,
    ensures
        one->0@ == other->0@,
{
    let a = one->0@;
    let b = other->0@;
    assert(turned_all(start, a) == goal);
    assert(turned_all(start, b) == goal);
    assert(a.len() == b.len());
}

/// Any turn makes a legal cube of a legal cube, and the turn that undoes it
/// gives the first cube back.
pub proof fn lemma_move_closure(c: Seq<Color>, m: Move)
    requires
        legal(c),
    ensures
        legal(turned(c, m)),
        turned(turned(c, m), m.inverse()) == c,
{
    let moves = choose|moves: Seq<Move>| #[trigger] turned_all(solved(), moves) == c;
    let longer = moves.push(m);
    assert(longer.drop_last() =~= moves);
    assert(turned_all(solved(), longer) == turned(c, m));
    lemma_turned_all_len(solved(), moves);
    lemma_turn_undone(c, m);
}

} // verus!
