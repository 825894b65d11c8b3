//! Handing the chunks of a vector to a pool of worker threads.

use rayon::iter::{IndexedParallelIterator, IntoParallelIterator, ParallelIterator};
use vstd::prelude::*;

verus! {

/// How many chunks of `size` items a sequence of `len` items splits into;
/// the last chunk may be shorter.
pub open spec fn chunk_count(len: int, size: int) -> int {
    (len + size - 1) / size
}

/// The `i`-th chunk of `size` items of a sequence.
pub open spec fn chunk_at<T>(items: Seq<T>, size: int, i: int) -> Seq<T> {
    items.subrange(
        i * size,
        if (i + 1) * size <= items.len() {
            (i + 1) * size
        } else {
            items.len() as int
        },
    )
}

/// `c` is one of the chunks of `size` items of a sequence.
pub open spec fn is_chunk<T>(items: Seq<T>, size: int, c: Seq<T>) -> bool {
    exists|i: int|
        0 <= i < chunk_count(items.len() as int, size) && c == #[trigger] chunk_at(items, size, i)
}

/// `r` is a result that `f` may give for a vector holding the items `c`.
pub open spec fn yields<T, R, F: Fn(Vec<T>) -> R>(f: F, c: Seq<T>, r: R) -> bool {
    exists|v: Vec<T>| v@ == c && #[trigger] f.ensures((v,), r)
}

/// Splits `items` into chunks of `chunk_size`, applies `f` to every chunk
/// on rayon's thread pool, and gathers the results in the order of the
/// chunks.
///
/// Trusted: this is `into_par_iter().chunks(chunk_size).map(f).collect()`
/// of rayon. Its documentation gives the chunks as consecutive runs of
/// `chunk_size` items, the last one possibly shorter, has `map` apply `f`
/// to each item, and shows a vector collected from a parallel iterator to
/// equal the one collected from the sequential iterator. `chunks` panics
/// on a chunk size of zero. Each result is claimed to be one that `f` may
/// give for its chunk, and no more. Rayon also panics where the machine
/// gives it no threads for its pool; no argument rules that out.
#[verifier::external_body]
pub(crate) fn par_map_chunks<T: Send, R: Send, F: Fn(Vec<T>) -> R + Send + Sync>(
    items: Vec<T>,
    chunk_size: usize,
    f: F,
) -> (out: Vec<R>)
    requires
        chunk_size > 0,
        forall|c: Vec<T>| is_chunk(items@, chunk_size as int, c@) ==> #[trigger] f.requires((c,)),
    ensures
        out@.len() == chunk_count(items@.len() as int, chunk_size as int),
        forall|i: int|
            0 <= i < out@.len() ==> yields(
                f,
                chunk_at(items@, chunk_size as int, i),
                #[trigger] out@[i],
            ),
{
    items.into_par_iter().chunks(chunk_size).map(f).collect()
}

/// The chunks of a sequence hold its items and nothing else.
pub proof fn lemma_chunks_cover<T>(items: Seq<T>, size: int)
    requires
        size > 0,
    ensures
        chunk_count(items.len() as int, size) >= 0,
        items.len() > 0 ==> chunk_count(items.len() as int, size) > 0,
        forall|i: int, x: T|
            0 <= i < chunk_count(items.len() as int, size) && (#[trigger] chunk_at(
                items,
                size,
                i,
            )).contains(x) ==> #[trigger] items.contains(x),
        forall|x: T|
            #[trigger] items.contains(x) ==> exists|i: int|
                0 <= i < chunk_count(items.len() as int, size) && (#[trigger] chunk_at(
                    items,
                    size,
                    i,
                )).contains(x),
{
    let len = items.len() as int;
    let count = chunk_count(len, size);
    vstd::arithmetic::div_mod::lemma_fundamental_div_mod(len + size - 1, size);
    vstd::arithmetic::div_mod::lemma_div_pos_is_pos(len + size - 1, size);
    assert((len + size - 1) % size < size) by {
        vstd::arithmetic::div_mod::lemma_mod_bound(len + size - 1, size);
    }
    // All chunks but perhaps the last are full, and the last one ends the sequence.
    assert((count - 1) * size < len || len == 0) by (nonlinear_arith)
        requires
            len + size - 1 == size * count + (len + size - 1) % size,
            0 <= (len + size - 1) % size < size,
            size > 0,
            len >= 0,
    ;
    assert(count * size >= len) by (nonlinear_arith)
        requires
            len + size - 1 == size * count + (len + size - 1) % size,
            0 <= (len + size - 1) % size < size,
            size > 0,
    ;
    if len > 0 {
        assert(count > 0) by (nonlinear_arith)
            requires
                count * size >= len,
                len > 0,
                size > 0,
        ;
    }
    assert forall|i: int, x: T|
        0 <= i < count && (#[trigger] chunk_at(items, size, i)).contains(
            x,
        ) implies #[trigger] items.contains(x) by {
        let c = chunk_at(items, size, i);
        assert(0 <= i * size <= (count - 1) * size) by (nonlinear_arith)
            requires
                0 <= i <= count - 1,
                size > 0,
        ;
        assert((i + 1) * size > i * size) by (nonlinear_arith)
            requires
                size > 0,
        ;
        assert(count >= 1 && len > 0) by {
            if len == 0 {
                assert(count <= 0) by (nonlinear_arith)
                    requires
                        len + size - 1 == size * count + (len + size - 1) % size,
                        0 <= (len + size - 1) % size,
                        len == 0,
                        size > 0,
                ;
            }
        }
        let lo = i * size;
        let hi = if (i + 1) * size <= len {
            (i + 1) * size
        } else {
            len
        };
        assert(0 <= lo < len && lo <= hi <= len);
        let k = choose|k: int| 0 <= k < c.len() && c[k] == x;
        assert(c[k] == items[lo + k]);
    }
    assert forall|x: T| #[trigger] items.contains(x) implies exists|i: int|
        0 <= i < count && (#[trigger] chunk_at(items, size, i)).contains(x) by {
        let q = choose|q: int| 0 <= q < items.len() && items[q] == x;
        let i = q / size;
        vstd::arithmetic::div_mod::lemma_fundamental_div_mod(q, size);
        vstd::arithmetic::div_mod::lemma_mod_bound(q, size);
        vstd::arithmetic::div_mod::lemma_div_pos_is_pos(q, size);
        assert(i * size <= q < (i + 1) * size) by (nonlinear_arith)
            requires
                q == size * i + q % size,
                0 <= q % size < size,
        ;
        assert(i < count) by (nonlinear_arith)
            requires
                i * size <= q,
                q < len,
                count * size >= len,
                size > 0,
        ;
        let c = chunk_at(items, size, i);
        assert(c[q - i * size] == x);
        assert(c.contains(x));
    }
}

} // verus!
