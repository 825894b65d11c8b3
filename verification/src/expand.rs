//! One level of the search: from a frontier to the frontier one turn on.

use crate::color::Color;
use crate::cube::turned;
use crate::frontier::{
    children, decoded, kids, kids_upto, lemma_children_insert, lemma_decoded_empty,
    lemma_decoded_insert, lemma_frontier_by_cubes, lemma_kids_listed, packed_set,
};
use crate::merge::union_of;
use crate::moves::{lemma_move_positions, move_at, Move};
use crate::packed::Packing;
use crate::parallel::{
    chunk_at, chunk_count, is_chunk, lemma_chunks_cover, par_map_chunks, yields,
};
use crate::sorted_vec::{lemma_take_step, SortedVec};
use vstd::prelude::*;

verus! {

/// How many worker threads the named solvers spread a level over.
pub const CORES_N: usize = 10;

/// Roughly how many times larger a frontier is than the one before it.
pub const GROWTH_RATE: usize = 13;

/// How the next frontier is put in order.
#[derive(Debug, Clone, Copy, PartialEq, Eq)]
pub enum FrontierBuild {
    /// Each child is inserted into a sorted set as it is made.
    SortedInsert,
    /// The children are gathered as they come, then sorted once.
    SortAfter,
    /// As `SortAfter`, with room set aside before the children are gathered.
    SortAfterReserved,
}

/// The children of the states of a chunk, as a sorted set.
pub fn expand_chunk_sorted<S: Packing>(chunk: Vec<S>) -> (out: SortedVec<S>)
    requires
        packed_set(chunk@.to_set()),
    ensures
        out.wf(),
        packed_set(out.contents()),
        decoded(out.contents()) == children(decoded(chunk@.to_set())),
{
    let mut out: SortedVec<S> = SortedVec::new();
    let mut i: usize = 0;
    proof {
        lemma_decoded_empty::<S>();
        assert(chunk@.take(0).to_set() =~= Set::<S>::empty());
        assert(out.contents() =~= Set::<S>::empty());
    }
    while i < chunk.len()
        invariant
            i <= chunk.len(),
            packed_set(chunk@.to_set()),
            out.wf(),
            packed_set(out.contents()),
            decoded(out.contents()) == children(decoded(chunk@.take(i as int).to_set())),
        decreases chunk.len() - i,
    {
        proof {
            assert(chunk@.contains(chunk@[i as int]));
            assert(chunk@.to_set().contains(chunk@[i as int]));
        }
        let rc = chunk[i].unpack();
        let kid_cubes = rc.juxt();
        let ghost base = children(decoded(chunk@.take(i as int).to_set()));
        let ghost p = chunk@[i as int].facelets();
        let mut j: usize = 0;
        proof {
            lemma_kids_listed(p);
            assert(base.union(kids_upto(p, 0)) =~= base);
        }
        while j < 18
            invariant
                j <= 18,
                out.wf(),
                packed_set(out.contents()),
                decoded(out.contents()) == base.union(kids_upto(p, j as int)),
                forall|k: int| 0 <= k < 18 ==> (#[trigger] kid_cubes[k])@ == turned(p, move_at(k)),
            decreases 18 - j,
        {
            let child = S::pack(&kid_cubes[j]);
            proof {
                lemma_decoded_insert(out.contents(), child);
                lemma_kids_listed(p);
                assert(base.union(kids_upto(p, j as int)).insert(child.facelets()) =~= base.union(
                    kids_upto(p, j + 1),
                ));
            }
            out.insert(child);
            j += 1;
        }
        proof {
            lemma_kids_listed(p);
            lemma_take_step(chunk@, i as int);
            lemma_decoded_insert(chunk@.take(i as int).to_set(), chunk@[i as int]);
            lemma_children_insert(decoded(chunk@.take(i as int).to_set()), p);
        }
        i += 1;
    }
    proof {
        assert(chunk@.take(i as int) =~= chunk@);
    }
    out
}

/// `out` lists the children of the states of `chunk`: eighteen for each
/// state, by the listing of turns, the states in their order.
pub open spec fn lists_children<S: Packing>(chunk: Seq<S>, out: Seq<S>) -> bool {
    &&& out.len() == 18 * chunk.len()
    &&& forall|k: int|
        0 <= k < out.len() ==> (#[trigger] out[k]).is_packed() && out[k].facelets() == turned(
            chunk[k / 18].facelets(),
            move_at(k % 18),
        )
}

/// A list of the children of a chunk stands for the children of the
/// cubes that the chunk stands for.
pub proof fn lemma_listed_children<S: Packing>(chunk: Seq<S>, out: Seq<S>)
    requires
        lists_children(chunk, out),
    ensures
        packed_set(out.to_set()),
        decoded(out.to_set()) == children(decoded(chunk.to_set())),
{
    let a = decoded(out.to_set());
    let b = children(decoded(chunk.to_set()));
    assert forall|x: S| #[trigger] out.to_set().contains(x) implies x.is_packed() by {
        let k = choose|k: int| 0 <= k < out.len() && out[k] == x;
        assert(out[k].is_packed());
    }
    assert forall|c: Seq<Color>| a.contains(c) <==> b.contains(c) by {
        if a.contains(c) {
            let x = choose|x: S| #[trigger] out.to_set().contains(x) && x.facelets() == c;
            let k = choose|k: int| 0 <= k < out.len() && out[k] == x;
            let i = k / 18;
            assert(0 <= i < chunk.len());
            let p = chunk[i].facelets();
            assert(chunk.contains(chunk[i]));
            assert(chunk.to_set().contains(chunk[i]));
            assert(decoded(chunk.to_set()).contains(p));
            assert(out[k].facelets() == turned(p, move_at(k % 18)));
            assert(kids(p).contains(c));
        }
        if b.contains(c) {
            let p = choose|p: Seq<Color>| #[trigger]
                decoded(chunk.to_set()).contains(p) && kids(p).contains(c);
            let y = choose|y: S| #[trigger] chunk.to_set().contains(y) && y.facelets() == p;
            let i = choose|i: int| 0 <= i < chunk.len() && chunk[i] == y;
            let m = choose|m: Move| c == #[trigger] turned(p, m);
            lemma_move_positions(m);
            let k = 18 * i + m.position();
            assert(k / 18 == i && k % 18 == m.position());
            assert(out[k].facelets() == c);
            assert(out.contains(out[k]));
            assert(out.to_set().contains(out[k]));
        }
    }
    assert(a =~= b);
}

/// The children of the states of a chunk, in the order in which they are
/// made, into a vector that the caller has made ready.
fn gather_children<S: Packing>(chunk: Vec<S>, room: Vec<S>) -> (out: Vec<S>)
    requires
        packed_set(chunk@.to_set()),
        room@.len() == 0,
    ensures
        lists_children(chunk@, out@),
{
    let mut out = room;
    let mut i: usize = 0;
    while i < chunk.len()
        invariant
            i <= chunk.len(),
            packed_set(chunk@.to_set()),
            lists_children(chunk@.take(i as int), out@),
        decreases chunk.len() - i,
    {
        proof {
            assert(chunk@.contains(chunk@[i as int]));
            assert(chunk@.to_set().contains(chunk@[i as int]));
        }
        let rc = chunk[i].unpack();
        let kid_cubes = rc.juxt();
        let ghost p = chunk@[i as int].facelets();
        let mut j: usize = 0;
        while j < 18
            invariant
                j <= 18,
                i < chunk.len(),
                p == chunk@[i as int].facelets(),
                out@.len() == 18 * i + j,
                forall|k: int|
                    0 <= k < out@.len() ==> (#[trigger] out@[k]).is_packed() && out@[k].facelets()
                        == turned(chunk@[k / 18].facelets(), move_at(k % 18)),
                forall|k: int| 0 <= k < 18 ==> (#[trigger] kid_cubes[k])@ == turned(p, move_at(k)),
            decreases 18 - j,
        {
            let child = S::pack(&kid_cubes[j]);
            proof {
                let k = 18 * i + j;
                assert(k / 18 == i && k % 18 == j);
            }
            out.push(child);
            j += 1;
        }
        i += 1;
    }
    proof {
        assert(chunk@.take(i as int) =~= chunk@);
    }
    out
}

/// The children of the states of a chunk, in the order in which they are
/// made: eighteen for each state.
pub fn expand_chunk_unsorted<S: Packing>(chunk: Vec<S>) -> (out: Vec<S>)
    requires
        packed_set(chunk@.to_set()),
    ensures
        lists_children(chunk@, out@),
{
    gather_children(chunk, Vec::new())
}

/// As `expand_chunk_unsorted`, into a vector with room for `GROWTH_RATE`
/// children of each state.
pub fn expand_chunk_reserved<S: Packing>(chunk: Vec<S>) -> (out: Vec<S>)
    requires
        packed_set(chunk@.to_set()),
    ensures
        lists_children(chunk@, out@),
{
    let room = match chunk.len().checked_mul(GROWTH_RATE) {
        Some(room) => Vec::with_capacity(room),
        None => Vec::new(),
    };
    gather_children(chunk, room)
}

/// The values of the first `n` parts, one part after the other.
pub open spec fn joined<T>(parts: Seq<Vec<T>>, n: int) -> Seq<T>
    decreases n,
{
    if n <= 0 {
        Seq::empty()
    } else {
        joined(parts, n - 1) + parts[n - 1]@
    }
}

/// What the joined parts hold is what the parts hold.
pub proof fn lemma_joined_holds<T>(parts: Seq<Vec<T>>, n: int, x: T)
    requires
        0 <= n <= parts.len(),
    ensures
        joined(parts, n).contains(x) <==> exists|i: int|
            0 <= i < n && (#[trigger] parts[i])@.contains(x),
    decreases n,
{
    if n > 0 {
        lemma_joined_holds(parts, n - 1, x);
        let a = joined(parts, n - 1);
        let b = parts[n - 1]@;
        if joined(parts, n).contains(x) {
            let k = choose|k: int| 0 <= k < (a + b).len() && (a + b)[k] == x;
            if k < a.len() {
                assert(a[k] == x);
                assert(a.contains(x));
            } else {
                assert(b[k - a.len()] == x);
                assert(b.contains(x));
            }
        }
        if a.contains(x) {
            let k = choose|k: int| 0 <= k < a.len() && a[k] == x;
            assert((a + b)[k] == x);
        }
        if b.contains(x) {
            let k = choose|k: int| 0 <= k < b.len() && b[k] == x;
            assert((a + b)[a.len() + k] == x);
        }
    }
}

/// One vector with the values of all the parts, one part after the other.
pub fn flatten<T: Copy>(parts: Vec<Vec<T>>) -> (out: Vec<T>)
    ensures
        out@ == joined(parts@, parts@.len() as int),
{
    let mut out: Vec<T> = Vec::new();
    let mut i: usize = 0;
    while i < parts.len()
        invariant
            i <= parts.len(),
            out@ == joined(parts@, i as int),
        decreases parts.len() - i,
    {
        let mut j: usize = 0;
        while j < parts[i].len()
            invariant
                i < parts.len(),
                j <= parts@[i as int]@.len(),
                out@ == joined(parts@, i as int) + parts@[i as int]@.take(j as int),
            decreases parts@[i as int]@.len() - j,
        {
            out.push(parts[i][j]);
            proof {
                assert(parts@[i as int]@.take(j + 1) =~= parts@[i as int]@.take(j as int).push(
                    parts@[i as int]@[j as int],
                ));
            }
            j += 1;
        }
        proof {
            assert(parts@[i as int]@.take(j as int) =~= parts@[i as int]@);
        }
        i += 1;
    }
    out
}

/// If each part of what comes out stands for the children of a part of
/// what went in, then all that comes out stands for the children of all
/// that went in.
pub proof fn lemma_children_by_parts<S: Packing>(
    ins: Seq<Set<S>>,
    outs: Seq<Set<S>>,
    all_in: Set<S>,
    all_out: Set<S>,
)
    requires
        ins.len() == outs.len(),
        forall|x: S|
            all_in.contains(x) <==> exists|i: int|
                0 <= i < ins.len() && (#[trigger] ins[i]).contains(x),
        forall|x: S|
            all_out.contains(x) <==> exists|i: int|
                0 <= i < outs.len() && (#[trigger] outs[i]).contains(x),
        forall|i: int|
            0 <= i < outs.len() ==> packed_set(#[trigger] outs[i]) && decoded(outs[i]) == children(
                decoded(ins[i]),
            ),
    ensures
        packed_set(all_out),
        decoded(all_out) == children(decoded(all_in)),
{
    assert forall|x: S| #[trigger] all_out.contains(x) implies x.is_packed() by {
        let i = choose|i: int| 0 <= i < outs.len() && (#[trigger] outs[i]).contains(x);
        assert(packed_set(outs[i]));
    }
    let a = decoded(all_out);
    let b = children(decoded(all_in));
    assert forall|c: Seq<Color>| a.contains(c) <==> b.contains(c) by {
        if a.contains(c) {
            let x = choose|x: S| #[trigger] all_out.contains(x) && x.facelets() == c;
            let i = choose|i: int| 0 <= i < outs.len() && (#[trigger] outs[i]).contains(x);
            assert(decoded(outs[i]).contains(c));
            assert(children(decoded(ins[i])).contains(c));
            let p = choose|p: Seq<Color>| #[trigger]
                decoded(ins[i]).contains(p) && kids(p).contains(c);
            let y = choose|y: S| #[trigger] ins[i].contains(y) && y.facelets() == p;
            assert(all_in.contains(y));
            assert(decoded(all_in).contains(p));
        }
        if b.contains(c) {
            let p = choose|p: Seq<Color>| #[trigger]
                decoded(all_in).contains(p) && kids(p).contains(c);
            let y = choose|y: S| #[trigger] all_in.contains(y) && y.facelets() == p;
            let i = choose|i: int| 0 <= i < ins.len() && (#[trigger] ins[i]).contains(y);
            assert(decoded(ins[i]).contains(p));
            assert(children(decoded(ins[i])).contains(c));
            assert(decoded(outs[i]).contains(c));
            let x = choose|x: S| #[trigger] outs[i].contains(x) && x.facelets() == c;
            assert(all_out.contains(x));
        }
    }
    assert(a =~= b);
}

/// The sets of values of the chunks of `size` items of a sequence.
pub open spec fn chunk_sets<S>(items: Seq<S>, size: int) -> Seq<Set<S>> {
    Seq::new(
        chunk_count(items.len() as int, size) as nat,
        |i: int| chunk_at(items, size, i).to_set(),
    )
}

/// The chunks of a sequence hold between them what the sequence holds, and
/// chunks of packed values are of packed values.
pub proof fn lemma_chunk_sets_cover<S: Packing>(items: Seq<S>, size: int)
    requires
        size > 0,
    ensures
        chunk_sets(items, size).len() == chunk_count(items.len() as int, size),
        forall|x: S|
            items.to_set().contains(x) <==> exists|i: int|
                0 <= i < chunk_sets(items, size).len() && (#[trigger] chunk_sets(
                    items,
                    size,
                )[i]).contains(x),
        packed_set(items.to_set()) ==> forall|c: Seq<S>|
            #[trigger] is_chunk(items, size, c) ==> packed_set(c.to_set()),
{
    let count = chunk_count(items.len() as int, size);
    let ins = chunk_sets(items, size);
    lemma_chunks_cover(items, size);
    assert forall|x: S|
        items.to_set().contains(x) <==> exists|i: int|
            0 <= i < ins.len() && (#[trigger] ins[i]).contains(x) by {
        if items.contains(x) {
            let i = choose|i: int|
                0 <= i < count && (#[trigger] chunk_at(items, size, i)).contains(x);
            assert(ins[i].contains(x));
        }
        if exists|i: int| 0 <= i < ins.len() && (#[trigger] ins[i]).contains(x) {
            let i = choose|i: int| 0 <= i < ins.len() && (#[trigger] ins[i]).contains(x);
            assert(chunk_at(items, size, i).contains(x));
        }
    }
    if packed_set(items.to_set()) {
        assert forall|c: Seq<S>| #[trigger] is_chunk(items, size, c) implies packed_set(
            c.to_set(),
        ) by {
            let i = choose|i: int| 0 <= i < count && c == #[trigger] chunk_at(items, size, i);
            assert forall|x: S| #[trigger] c.to_set().contains(x) implies x.is_packed() by {
                assert(chunk_at(items, size, i).contains(x));
                assert(items.contains(x));
                assert(items.to_set().contains(x));
            }
        }
    }
}

/// `f` can be given any chunk of packed values, and what it gives is a
/// list of the children of the chunk.
pub open spec fn lists_any_chunk<S: Packing, F: Fn(Vec<S>) -> Vec<S>>(f: F) -> bool {
    &&& forall|c: Vec<S>| packed_set(c@.to_set()) ==> #[trigger] f.requires((c,))
    &&& forall|c: Vec<S>, out: Vec<S>| #[trigger] f.ensures((c,), out) ==> lists_children(c@, out@)
}

/// The children of the states of `items`, listed by `f` and then sorted:
/// in one piece where `chunk_size` is `None`, else chunk by chunk, side by
/// side, the lists joined.
fn list_then_sort<S: Packing + Send + Sync, F: Fn(Vec<S>) -> Vec<S> + Send + Sync>(
    items: Vec<S>,
    chunk_size: Option<usize>,
    f: F,
) -> (next: SortedVec<S>)
    requires
        packed_set(items@.to_set()),
        lists_any_chunk(f),
        chunk_size matches Some(size) ==> size > 0,
    ensures
        next.wf(),
        packed_set(next.contents()),
        decoded(next.contents()) == children(decoded(items@.to_set())),
{
    let listed = match chunk_size {
        None => {
            let listed = f(items);
            proof {
                lemma_listed_children(items@, listed@);
            }
            listed
        },
        Some(size) => {
            proof {
                lemma_chunk_sets_cover(items@, size as int);
            }
            let parts = par_map_chunks(items, size, f);
            proof {
                let ins = chunk_sets(items@, size as int);
                assert forall|i: int| 0 <= i < parts@.len() implies packed_set(
                    (#[trigger] parts@[i])@.to_set(),
                ) && decoded(parts@[i]@.to_set()) == children(decoded(ins[i])) by {
                    assert(yields(f, chunk_at(items@, size as int, i), parts@[i]));
                    lemma_listed_children(chunk_at(items@, size as int, i), parts@[i]@);
                }
                lemma_gathered_by_parts(ins, parts@, items@.to_set());
            }
            flatten(parts)
        },
    };
    SortedVec::from_vec(listed)
}

/// The children of the states of `items`, each chunk expanded into a
/// sorted set of its own, side by side, and the sets merged.
fn sort_then_merge<S: Packing + Send + Sync>(items: Vec<S>, chunk_size: usize) -> (next: SortedVec<
    S,
>)
    requires
        packed_set(items@.to_set()),
        chunk_size > 0,
    ensures
        next.wf(),
        packed_set(next.contents()),
        decoded(next.contents()) == children(decoded(items@.to_set())),
{
    proof {
        lemma_chunk_sets_cover(items@, chunk_size as int);
    }
    let parts = par_map_chunks(items, chunk_size, expand_chunk_sorted::<S>);
    proof {
        let size = chunk_size as int;
        let ins = chunk_sets(items@, size);
        let outs = Seq::new(parts@.len(), |i: int| parts@[i].contents());
        assert forall|i: int| 0 <= i < parts@.len() implies (#[trigger] parts@[i]).wf()
            && packed_set(parts@[i].contents()) && decoded(parts@[i].contents()) == children(
            decoded(ins[i]),
        ) by {
            assert(yields(expand_chunk_sorted::<S>, chunk_at(items@, size, i), parts@[i]));
        }
        assert forall|x: S|
            union_of(parts@).contains(x) <==> exists|i: int|
                0 <= i < outs.len() && (#[trigger] outs[i]).contains(x) by {
            if union_of(parts@).contains(x) {
                let i = choose|i: int|
                    0 <= i < parts@.len() && (#[trigger] parts@[i])@.contains(x);
                assert(outs[i].contains(x));
            }
            if exists|i: int| 0 <= i < outs.len() && (#[trigger] outs[i]).contains(x) {
                let i = choose|i: int| 0 <= i < outs.len() && (#[trigger] outs[i]).contains(x);
                assert(parts@[i]@.contains(x));
            }
        }
        lemma_children_by_parts(ins, outs, items@.to_set(), union_of(parts@));
    }
    SortedVec::from_sorted_vecs(parts)
}

/// The size of the chunks that `len` items are cut into for `workers`
/// workers: `len` over `workers`, rounded up. `None` where one worker, or
/// none, is to do the work in one piece, and where there is no work.
pub fn chunk_size_for(len: usize, workers: usize) -> (chunk_size: Option<usize>)
    ensures
        workers <= 1 || len == 0 <==> chunk_size is None,
        chunk_size matches Some(size) ==> size > 0 && size == chunk_count(
            len as int,
            workers as int,
        ),
{
    if workers <= 1 || len == 0 {
        return None;
    }
    proof {
        vstd::arithmetic::div_mod::lemma_div_is_ordered_by_denominator(
            len as int,
            2,
            workers as int,
        );
        vstd::arithmetic::div_mod::lemma_fundamental_div_mod(len as int, workers as int);
    }
    let size: usize = if len % workers == 0 {
        len / workers
    } else {
        len / workers + 1
    };
    proof {
        let w = workers as int;
        let q = (len / workers) as int;
        let r = (len % workers) as int;
        assert(len == w * q + r);
        if r == 0 {
            assert(len + w - 1 == q * w + (w - 1) && q > 0) by (nonlinear_arith)
                requires
                    len == w * q,
                    len > 0,
                    w > 0,
                    q >= 0,
            ;
            vstd::arithmetic::div_mod::lemma_fundamental_div_mod_converse(
                len + w - 1,
                w,
                q,
                w - 1,
            );
        } else {
            assert(len + w - 1 == (q + 1) * w + (r - 1)) by (nonlinear_arith)
                requires
                    len == w * q + r,
            ;
            vstd::arithmetic::div_mod::lemma_fundamental_div_mod_converse(
                len + w - 1,
                w,
                q + 1,
                r - 1,
            );
        }
    }
    Some(size)
}

/// The frontier one turn on from a frontier: the children of its states,
/// each once, in sorted order.
///
/// With more than one worker the frontier is cut into chunks of equal
/// size, the last one perhaps shorter, no more chunks than workers, and the
/// chunks are expanded side by side. Neither `build` nor `workers` shows in
/// what comes out.
pub fn expand<S: Packing + Send + Sync>(
    frontier: SortedVec<S>,
    build: FrontierBuild,
    workers: usize,
) -> (next: SortedVec<S>)
    requires
        frontier.wf(),
        packed_set(frontier.contents()),
    ensures
        next.wf(),
        packed_set(next.contents()),
        decoded(next.contents()) == children(decoded(frontier.contents())),
{
    let chunk_size = chunk_size_for(frontier.len(), workers);
    match build {
        FrontierBuild::SortedInsert => match chunk_size {
            None => expand_chunk_sorted(frontier.items),
            Some(size) => sort_then_merge(frontier.items, size),
        },
        FrontierBuild::SortAfter => list_then_sort(
            frontier.items,
            chunk_size,
            expand_chunk_unsorted::<S>,
        ),
        FrontierBuild::SortAfterReserved => list_then_sort(
            frontier.items,
            chunk_size,
            expand_chunk_reserved::<S>,
        ),
    }
}

/// The joined parts stand for the children of all that went in, if each
/// part stands for the children of its part of what went in.
pub proof fn lemma_gathered_by_parts<S: Packing>(
    ins: Seq<Set<S>>,
    parts: Seq<Vec<S>>,
    all_in: Set<S>,
)
    requires
        ins.len() == parts.len(),
        forall|x: S|
            all_in.contains(x) <==> exists|i: int|
                0 <= i < ins.len() && (#[trigger] ins[i]).contains(x),
        forall|i: int|
            0 <= i < parts.len() ==> packed_set((#[trigger] parts[i])@.to_set()) && decoded(
                parts[i]@.to_set(),
            ) == children(decoded(ins[i])),
    ensures
        packed_set(joined(parts, parts.len() as int).to_set()),
        decoded(joined(parts, parts.len() as int).to_set()) == children(decoded(all_in)),
{
    let outs = Seq::new(parts.len(), |i: int| parts[i]@.to_set());
    let all_out = joined(parts, parts.len() as int).to_set();
    assert forall|x: S|
        all_out.contains(x) <==> exists|i: int|
            0 <= i < outs.len() && (#[trigger] outs[i]).contains(x) by {
        lemma_joined_holds(parts, parts.len() as int, x);
        if all_out.contains(x) {
            let i = choose|i: int| 0 <= i < parts.len() && (#[trigger] parts[i])@.contains(x);
            assert(outs[i].contains(x));
        }
        if exists|i: int| 0 <= i < outs.len() && (#[trigger] outs[i]).contains(x) {
            let i = choose|i: int| 0 <= i < outs.len() && (#[trigger] outs[i]).contains(x);
            assert(parts[i]@.contains(x));
        }
    }
    assert forall|i: int| 0 <= i < outs.len() implies packed_set(#[trigger] outs[i]) && decoded(
        outs[i],
    ) == children(decoded(ins[i])) by {
        assert(packed_set(parts[i]@.to_set()));
    }
    lemma_children_by_parts(ins, outs, all_in, all_out);
}

/// Two frontiers that both stand for the children of one frontier are the
/// same frontier: the number of workers and the way of building leave no
/// trace in what `expand` gives.
pub proof fn lemma_expand_is_determined<S: Packing>(
    frontier: SortedVec<S>,
    one: SortedVec<S>,
    other: SortedVec<S>,
)
    requires
        one.wf(),
        packed_set(one.contents()),
        decoded(one.contents()) == children(decoded(frontier.contents())),
        other.wf(),
        packed_set(other.contents()),
        decoded(other.contents()) == children(decoded(frontier.contents())),
    ensures
        one@ == other@,
{
    lemma_frontier_by_cubes(one@, other@);
}

} // verus!
