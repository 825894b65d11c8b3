//! What a frontier stands for: the set of cubes that its packed values
//! unpack to, and the set of cubes one turn away from a set of cubes.

use crate::color::Color;
use crate::cube::turned;
use crate::moves::{lemma_move_positions, move_at, Move};
use crate::packed::Packing;
use crate::sorted_vec::{lemma_sorted_form_unique, strictly_increasing};
use vstd::prelude::*;

verus! {

/// Every value of the set is the packing of a cube.
pub open spec fn packed_set<S: Packing>(t: Set<S>) -> bool {
    forall|x: S| #[trigger] t.contains(x) ==> x.is_packed()
}

/// The cubes that the values of a set stand for.
pub open spec fn decoded<S: Packing>(t: Set<S>) -> Set<Seq<Color>> {
    Set::new(|c: Seq<Color>| exists|x: S| #[trigger] t.contains(x) && x.facelets() == c)
}

/// The cubes one turn away from a cube.
pub open spec fn kids(p: Seq<Color>) -> Set<Seq<Color>> {
    Set::new(|c: Seq<Color>| exists|m: Move| c == #[trigger] turned(p, m))
}

/// The cubes that the first `j` turns of the listing make of a cube.
pub open spec fn kids_upto(p: Seq<Color>, j: int) -> Set<Seq<Color>> {
    Set::new(|c: Seq<Color>| exists|k: int| 0 <= k < j && c == turned(p, #[trigger] move_at(k)))
}

/// The cubes one turn away from some cube of a set.
pub open spec fn children(cubes: Set<Seq<Color>>) -> Set<Seq<Color>> {
    Set::new(
        |c: Seq<Color>| exists|p: Seq<Color>| #[trigger] cubes.contains(p) && kids(p).contains(c),
    )
}

/// No values stand for no cubes, and no cubes have no children.
pub proof fn lemma_decoded_empty<S: Packing>()
    ensures
        decoded(Set::<S>::empty()) == Set::<Seq<Color>>::empty(),
        children(Set::<Seq<Color>>::empty()) == Set::<Seq<Color>>::empty(),
{
    assert(decoded(Set::<S>::empty()) =~= Set::<Seq<Color>>::empty());
    assert(children(Set::<Seq<Color>>::empty()) =~= Set::<Seq<Color>>::empty());
}

/// One value more stands for one cube more.
pub proof fn lemma_decoded_insert<S: Packing>(t: Set<S>, x: S)
    ensures
        decoded(t.insert(x)) == decoded(t).insert(x.facelets()),
{
    let a = decoded(t.insert(x));
    let b = decoded(t).insert(x.facelets());
    assert forall|c: Seq<Color>| a.contains(c) <==> b.contains(c) by {
        if a.contains(c) {
            let y = choose|y: S| #[trigger] t.insert(x).contains(y) && y.facelets() == c;
            if y != x {
                assert(t.contains(y));
            }
        }
        if decoded(t).contains(c) {
            let y = choose|y: S| #[trigger] t.contains(y) && y.facelets() == c;
            assert(t.insert(x).contains(y));
        }
        if c == x.facelets() {
            assert(t.insert(x).contains(x));
        }
    }
    assert(a =~= b);
}

/// One cube more adds its own children to the children.
pub proof fn lemma_children_insert(s: Set<Seq<Color>>, p: Seq<Color>)
    ensures
        children(s.insert(p)) == children(s).union(kids(p)),
{
    let a = children(s.insert(p));
    let b = children(s).union(kids(p));
    assert forall|c: Seq<Color>| a.contains(c) <==> b.contains(c) by {
        if a.contains(c) {
            let q = choose|q: Seq<Color>| #[trigger] s.insert(p).contains(q) && kids(q).contains(c);
            if q != p {
                assert(s.contains(q));
            }
        }
        if children(s).contains(c) {
            let q = choose|q: Seq<Color>| #[trigger] s.contains(q) && kids(q).contains(c);
            assert(s.insert(p).contains(q));
        }
        if kids(p).contains(c) {
            assert(s.insert(p).contains(p));
        }
    }
    assert(a =~= b);
}

/// The eighteen turns of the listing are all the turns there are.
pub proof fn lemma_kids_listed(p: Seq<Color>)
    ensures
        kids_upto(p, 0) == Set::<Seq<Color>>::empty(),
        kids_upto(p, 18) == kids(p),
        forall|j: int|
            0 <= j ==> #[trigger] kids_upto(p, j + 1) == kids_upto(p, j).insert(
                turned(p, move_at(j)),
            ),
{
    assert(kids_upto(p, 0) =~= Set::<Seq<Color>>::empty());
    assert forall|c: Seq<Color>| kids_upto(p, 18).contains(c) <==> kids(p).contains(c) by {
        if kids(p).contains(c) {
            let m = choose|m: Move| c == #[trigger] turned(p, m);
            lemma_move_positions(m);
            assert(c == turned(p, move_at(m.position())));
        }
        if kids_upto(p, 18).contains(c) {
            let k = choose|k: int| 0 <= k < 18 && c == turned(p, #[trigger] move_at(k));
            assert(c == turned(p, move_at(k)));
        }
    }
    assert(kids_upto(p, 18) =~= kids(p));
    assert forall|j: int| 0 <= j implies #[trigger] kids_upto(p, j + 1) == kids_upto(p, j).insert(
        turned(p, move_at(j)),
    ) by {
        let a = kids_upto(p, j + 1);
        let b = kids_upto(p, j).insert(turned(p, move_at(j)));
        assert forall|c: Seq<Color>| a.contains(c) <==> b.contains(c) by {
            if a.contains(c) {
                let k = choose|k: int| 0 <= k < j + 1 && c == turned(p, #[trigger] move_at(k));
                if k < j {
                    assert(kids_upto(p, j).contains(c));
                }
            }
            if kids_upto(p, j).contains(c) {
                let k = choose|k: int| 0 <= k < j && c == turned(p, #[trigger] move_at(k));
                assert(0 <= k < j + 1 && c == turned(p, move_at(k)));
            }
            if c == turned(p, move_at(j)) {
                assert(0 <= j < j + 1 && c == turned(p, move_at(j)));
            }
        }
        assert(a =~= b);
    }
}

/// A set of packed values is known by the cubes it stands for.
pub proof fn lemma_packed_set_by_cubes<S: Packing>(s: Set<S>, t: Set<S>)
    requires
        packed_set(s),
        packed_set(t),
        decoded(s) == decoded(t),
    ensures
        s == t,
{
    assert forall|x: S| s.contains(x) <==> t.contains(x) by {
        if s.contains(x) {
            assert(decoded(s).contains(x.facelets()));
            assert(decoded(t).contains(x.facelets()));
            let y = choose|y: S| #[trigger] t.contains(y) && y.facelets() == x.facelets();
            S::lemma_facelets_injective(x, y);
        }
        if t.contains(x) {
            assert(decoded(t).contains(x.facelets()));
            assert(decoded(s).contains(x.facelets()));
            let y = choose|y: S| #[trigger] s.contains(y) && y.facelets() == x.facelets();
            S::lemma_facelets_injective(x, y);
        }
    }
    assert(s =~= t);
}

/// Two frontiers that stand for the same cubes are the same sequence of
/// packed values: how a frontier was built leaves no trace in it.
pub proof fn lemma_frontier_by_cubes<S: Packing>(a: Seq<S>, b: Seq<S>)
    requires
        strictly_increasing(a),
        strictly_increasing(b),
        packed_set(a.to_set()),
        packed_set(b.to_set()),
        decoded(a.to_set()) == decoded(b.to_set()),
    ensures
        a == b,
{
    lemma_packed_set_by_cubes(a.to_set(), b.to_set());
    lemma_sorted_form_unique(a, b);
}

/// Sets of packed values with no value in common stand for sets of cubes
/// with no cube in common.
pub proof fn lemma_decoded_disjoint<S: Packing>(s: Set<S>, t: Set<S>)
    requires
        packed_set(s),
        packed_set(t),
        s.disjoint(t),
    ensures
        decoded(s).disjoint(decoded(t)),
{
    assert forall|c: Seq<Color>| !(decoded(s).contains(c) && decoded(t).contains(c)) by {
        if decoded(s).contains(c) && decoded(t).contains(c) {
            let x = choose|x: S| #[trigger] s.contains(x) && x.facelets() == c;
            let y = choose|y: S| #[trigger] t.contains(y) && y.facelets() == c;
            S::lemma_facelets_injective(x, y);
        }
    }
}

} // verus!
