//! Merging several sorted sets into one, through a min-heap of their heads.

use crate::heap::MinHeap;
use crate::order::{lemma_asymmetric, Comparison, TotalOrder};
use crate::sorted_vec::{
    lemma_push_keeps_increasing, lemma_sorted_form_unique, strictly_increasing, SortedVec,
};
use vstd::multiset::Multiset;
use vstd::prelude::*;

verus! {

/// The value at the head of a part that is being merged, with the number
/// of the part it came from.
#[derive(Debug, Clone, Copy)]
pub struct Head<T: TotalOrder> {
    pub value: T,
    pub part: usize,
}

/// Heads are ordered by value; among equal values, by the number of the part.
impl<T: TotalOrder> TotalOrder for Head<T> {
    open spec fn lt(self, other: Self) -> bool {
        self.value.lt(other.value) || (self.value == other.value && self.part < other.part)
    }

    proof fn lemma_irreflexive(a: Self) {
        T::lemma_irreflexive(a.value);
    }

    proof fn lemma_transitive(a: Self, b: Self, c: Self) {
        if a.value.lt(b.value) && b.value.lt(c.value) {
            T::lemma_transitive(a.value, b.value, c.value);
        }
    }

    proof fn lemma_connected(a: Self, b: Self) {
        T::lemma_connected(a.value, b.value);
    }

    fn compare(&self, other: &Self) -> (c: Comparison) {
        proof {
            T::lemma_irreflexive(self.value);
            if self.value.lt(other.value) {
                lemma_asymmetric(self.value, other.value);
            }
            if other.value.lt(self.value) {
                lemma_asymmetric(other.value, self.value);
            }
        }
        match self.value.compare(&other.value) {
            Comparison::Less => Comparison::Less,
            Comparison::Greater => Comparison::Greater,
            Comparison::Equal => {
                if self.part < other.part {
                    Comparison::Less
                } else if self.part == other.part {
                    Comparison::Equal
                } else {
                    Comparison::Greater
                }
            },
        }
    }
}

/// The values that at least one of the parts holds.
pub open spec fn union_of<T: TotalOrder>(parts: Seq<SortedVec<T>>) -> Set<T> {
    Set::new(|x: T| exists|i: int| 0 <= i < parts.len() && (#[trigger] parts[i])@.contains(x))
}

/// Every part is a sorted set.
pub open spec fn all_sorted<T: TotalOrder>(parts: Seq<SortedVec<T>>) -> bool {
    forall|i: int| 0 <= i < parts.len() ==> (#[trigger] parts[i]).wf()
}

/// The head that part `i` has in the heap when `next[i]` of its values
/// have been handed to the heap.
pub open spec fn head_of<T: TotalOrder>(
    parts: Seq<SortedVec<T>>,
    next: Seq<usize>,
    i: int,
) -> Head<T> {
    Head { value: parts[i]@[next[i] - 1], part: i as usize }
}

/// Part `i` has a head in the heap.
pub open spec fn has_head<T: TotalOrder>(
    parts: Seq<SortedVec<T>>,
    next: Seq<usize>,
    heap: Multiset<Head<T>>,
    i: int,
) -> bool {
    next[i] >= 1 && heap.contains(head_of(parts, next, i))
}

/// How many values of part `i` have left the heap.
pub open spec fn done<T: TotalOrder>(
    parts: Seq<SortedVec<T>>,
    next: Seq<usize>,
    heap: Multiset<Head<T>>,
    i: int,
) -> int {
    if has_head(parts, next, heap, i) {
        next[i] - 1
    } else {
        next[i] as int
    }
}

/// The heap holds, for each part begun and not used up, the one value of
/// it that comes next, and nothing else.
pub open spec fn heads_match<T: TotalOrder>(
    parts: Seq<SortedVec<T>>,
    next: Seq<usize>,
    heap: Multiset<Head<T>>,
) -> bool {
    &&& next.len() <= parts.len()
    &&& forall|i: int| 0 <= i < next.len() ==> (#[trigger] next[i]) <= parts[i]@.len()
    &&& forall|e: Head<T>| #[trigger]
        heap.contains(e) ==> {
            &&& e.part < next.len()
            &&& e == head_of(parts, next, e.part as int)
            &&& next[e.part as int] >= 1
            &&& heap.count(e) == 1
        }
    &&& forall|i: int|
        0 <= i < next.len() && !has_head(parts, next, heap, i) ==> (#[trigger] next[i])
            == parts[i]@.len()
}

/// `x` is a value that has left the heap.
pub open spec fn taken<T: TotalOrder>(
    parts: Seq<SortedVec<T>>,
    next: Seq<usize>,
    heap: Multiset<Head<T>>,
    x: T,
) -> bool {
    exists|i: int, j: int|
        0 <= i < next.len() && 0 <= j < done(parts, next, heap, i) && #[trigger] parts[i]@[j] == x
}

/// The values of the parts that have not yet been handed to the heap,
/// counted over the first `n` parts.
pub open spec fn unread<T: TotalOrder>(parts: Seq<SortedVec<T>>, next: Seq<usize>, n: int) -> int
    decreases n,
{
    if n <= 0 {
        0
    } else {
        unread(parts, next, n - 1) + parts[n - 1]@.len() - next[n - 1]
    }
}

/// Nothing is counted below zero.
pub proof fn lemma_unread_bounds<T: TotalOrder>(parts: Seq<SortedVec<T>>, next: Seq<usize>, n: int)
    requires
        0 <= n <= next.len() <= parts.len(),
        forall|i: int| 0 <= i < next.len() ==> (#[trigger] next[i]) <= parts[i]@.len(),
    ensures
        unread(parts, next, n) >= 0,
    decreases n,
{
    if n > 0 {
        lemma_unread_bounds(parts, next, n - 1);
    }
}

/// Handing one more value of part `p` to the heap leaves one fewer unread.
pub proof fn lemma_unread_step<T: TotalOrder>(
    parts: Seq<SortedVec<T>>,
    next: Seq<usize>,
    p: int,
    n: int,
)
    requires
        0 <= p < next.len(),
        0 <= n <= next.len() <= parts.len(),
        next[p] < usize::MAX,
    ensures
        unread(parts, next.update(p, (next[p] + 1) as usize), n) == unread(parts, next, n) - (if p
            < n {
            1int
        } else {
            0int
        }),
    decreases n,
{
    if n > 0 {
        lemma_unread_step(parts, next, p, n - 1);
    }
}

/// When the least head leaves the heap and the next value of its part
/// takes its place, the heap still matches, and the value that left is
/// the one value newly taken.
pub proof fn lemma_head_replaced<T: TotalOrder>(
    parts: Seq<SortedVec<T>>,
    next: Seq<usize>,
    heap: Multiset<Head<T>>,
    e: Head<T>,
)
    requires
        all_sorted(parts),
        next.len() == parts.len() <= usize::MAX,
        heads_match(parts, next, heap),
        heap.contains(e),
        next[e.part as int] < parts[e.part as int]@.len(),
    ensures
        ({
            let p = e.part as int;
            let next1 = next.update(p, (next[p] + 1) as usize);
            let heap1 = heap.remove(e).insert(head_of(parts, next1, p));
            &&& heads_match(parts, next1, heap1)
            &&& forall|x: T|
                taken(parts, next1, heap1, x) <==> taken(parts, next, heap, x) || x == e.value
            &&& e.value.lt(head_of(parts, next1, p).value)
        }),
{
    let p = e.part as int;
    let idx = next[p] as int;
    let next1 = next.update(p, (next[p] + 1) as usize);
    let e1 = head_of(parts, next1, p);
    let heap0 = heap.remove(e);
    let heap1 = heap0.insert(e1);
    assert(parts[p]@.len() == parts[p].items.len());
    assert(next1[p] == idx + 1);
    assert(e == head_of(parts, next, p));
    assert(parts[p].wf());
    assert(parts[p]@[idx - 1].lt(parts[p]@[idx]));
    lemma_asymmetric(e.value, e1.value);
    assert(e1 != e);
    // Any head of part `p` in the old heap is `e`.
    assert forall|f: Head<T>| heap.contains(f) && f.part == e.part implies f == e by {
        assert(f == head_of(parts, next, f.part as int));
    }
    assert(!heap.contains(e1));
    assert forall|f: Head<T>| #[trigger] heap1.contains(f) implies {
        &&& f.part < next1.len()
        &&& f == head_of(parts, next1, f.part as int)
        &&& next1[f.part as int] >= 1
        &&& heap1.count(f) == 1
    } by {
        if f != e1 {
            assert(heap.contains(f));
            assert(f != e);
            assert(f.part != e.part);
        }
    }
    assert forall|i: int| 0 <= i < next1.len() implies has_head(parts, next1, heap1, i) == (i == p
        || has_head(parts, next, heap, i)) by {
        if i != p {
            let h = head_of(parts, next, i);
            assert(head_of(parts, next1, i) == h);
            assert(h != e && h != e1);
            assert(heap1.count(h) == heap.count(h));
        } else {
            assert(heap1.count(e1) > 0);
        }
    }
    assert(has_head(parts, next, heap, p));
    assert forall|i: int| 0 <= i < next1.len() implies done(parts, next1, heap1, i) == done(
        parts,
        next,
        heap,
        i,
    ) + (if i == p {
        1int
    } else {
        0int
    }) by {}
    assert forall|x: T| taken(parts, next1, heap1, x) <==> taken(parts, next, heap, x) || x
        == e.value by {
        if taken(parts, next1, heap1, x) {
            let (i, j) = choose|i: int, j: int|
                0 <= i < next1.len() && 0 <= j < done(parts, next1, heap1, i)
                    && #[trigger] parts[i]@[j] == x;
            if i == p && j == idx - 1 {
            } else {
                assert(0 <= j < done(parts, next, heap, i) && parts[i]@[j] == x);
            }
        }
        if taken(parts, next, heap, x) {
            let (i, j) = choose|i: int, j: int|
                0 <= i < next.len() && 0 <= j < done(parts, next, heap, i)
                    && #[trigger] parts[i]@[j] == x;
            assert(0 <= j < done(parts, next1, heap1, i) && parts[i]@[j] == x);
        }
        if x == e.value {
            assert(0 <= idx - 1 < done(parts, next1, heap1, p) && parts[p]@[idx - 1] == x);
        }
    }
}

/// When the least head leaves the heap and its part has no more values,
/// the heap still matches, and the value that left is the one value newly
/// taken.
pub proof fn lemma_head_dropped<T: TotalOrder>(
    parts: Seq<SortedVec<T>>,
    next: Seq<usize>,
    heap: Multiset<Head<T>>,
    e: Head<T>,
)
    requires
        all_sorted(parts),
        next.len() == parts.len() <= usize::MAX,
        heads_match(parts, next, heap),
        heap.contains(e),
        next[e.part as int] == parts[e.part as int]@.len(),
    ensures
        heads_match(parts, next, heap.remove(e)),
        forall|x: T|
            taken(parts, next, heap.remove(e), x) <==> taken(parts, next, heap, x) || x == e.value,
{
    let p = e.part as int;
    let idx = next[p] as int;
    let heap1 = heap.remove(e);
    assert(e == head_of(parts, next, p));
    assert forall|f: Head<T>| #[trigger] heap1.contains(f) implies {
        &&& f.part < next.len()
        &&& f == head_of(parts, next, f.part as int)
        &&& next[f.part as int] >= 1
        &&& heap1.count(f) == 1
    } by {
        assert(heap.contains(f));
    }
    assert forall|i: int| 0 <= i < next.len() implies has_head(parts, next, heap1, i) == (i != p
        && has_head(parts, next, heap, i)) by {
        if i != p {
            let h = head_of(parts, next, i);
            assert(h != e);
            assert(heap1.count(h) == heap.count(h));
        } else {
            assert(heap1.count(e) == 0);
        }
    }
    assert(has_head(parts, next, heap, p));
    assert forall|i: int| 0 <= i < next.len() implies done(parts, next, heap1, i) == done(
        parts,
        next,
        heap,
        i,
    ) + (if i == p {
        1int
    } else {
        0int
    }) by {}
    assert forall|x: T| taken(parts, next, heap1, x) <==> taken(parts, next, heap, x) || x
        == e.value by {
        if taken(parts, next, heap1, x) {
            let (i, j) = choose|i: int, j: int|
                0 <= i < next.len() && 0 <= j < done(parts, next, heap1, i)
                    && #[trigger] parts[i]@[j] == x;
            if i == p && j == idx - 1 {
            } else {
                assert(0 <= j < done(parts, next, heap, i) && parts[i]@[j] == x);
            }
        }
        if taken(parts, next, heap, x) {
            let (i, j) = choose|i: int, j: int|
                0 <= i < next.len() && 0 <= j < done(parts, next, heap, i)
                    && #[trigger] parts[i]@[j] == x;
            assert(0 <= j < done(parts, next, heap1, i) && parts[i]@[j] == x);
        }
        if x == e.value {
            assert(0 <= idx - 1 < done(parts, next, heap1, p) && parts[p]@[idx - 1] == x);
        }
    }
}

/// When a further part is begun, the heap still matches and nothing more
/// is taken. The part gives its first value to the heap, if it has one.
pub proof fn lemma_part_begun<T: TotalOrder>(
    parts: Seq<SortedVec<T>>,
    next: Seq<usize>,
    heap: Multiset<Head<T>>,
    next1: Seq<usize>,
    heap1: Multiset<Head<T>>,
)
    requires
        next.len() < parts.len() <= usize::MAX,
        heads_match(parts, next, heap),
        forall|x: T| !taken(parts, next, heap, x),
        parts[next.len() as int]@.len() == 0 ==> next1 == next.push(0usize) && heap1 == heap,
        parts[next.len() as int]@.len() > 0 ==> next1 == next.push(1usize) && heap1 == heap.insert(
            head_of(parts, next1, next.len() as int),
        ),
    ensures
        heads_match(parts, next1, heap1),
        forall|x: T| !taken(parts, next1, heap1, x),
{
    let p = next.len() as int;
    let empty = parts[p]@.len() == 0;
    let e1 = head_of(parts, next1, p);
    assert(!heap.contains(e1));
    assert forall|f: Head<T>| #[trigger] heap1.contains(f) implies {
        &&& f.part < next1.len()
        &&& f == head_of(parts, next1, f.part as int)
        &&& next1[f.part as int] >= 1
        &&& heap1.count(f) == 1
    } by {
        if heap.contains(f) {
            assert(f.part < next.len());
            assert(next1[f.part as int] == next[f.part as int]);
        }
    }
    assert forall|i: int| 0 <= i < next.len() implies has_head(parts, next1, heap1, i) == has_head(
        parts,
        next,
        heap,
        i,
    ) by {
        let h = head_of(parts, next, i);
        assert(head_of(parts, next1, i) == h);
        assert(h != e1);
    }
    assert forall|i: int| 0 <= i < next1.len() implies (if i < next.len() {
        done(parts, next1, heap1, i) == done(parts, next, heap, i)
    } else {
        done(parts, next1, heap1, i) == 0
    }) by {
        if i == p && !empty {
            assert(heap1.count(e1) > 0);
        }
    }
    assert forall|x: T| !taken(parts, next1, heap1, x) by {
        if taken(parts, next1, heap1, x) {
            let (i, j) = choose|i: int, j: int|
                0 <= i < next1.len() && 0 <= j < done(parts, next1, heap1, i)
                    && #[trigger] parts[i]@[j] == x;
            assert(i < next.len());
            assert(0 <= j < done(parts, next, heap, i) && parts[i]@[j] == x);
            assert(taken(parts, next, heap, x));
        }
    }
}

/// When the heap is empty, what has been taken is what the parts hold.
pub proof fn lemma_all_taken<T: TotalOrder>(
    parts: Seq<SortedVec<T>>,
    next: Seq<usize>,
    heap: Multiset<Head<T>>,
    x: T,
)
    requires
        next.len() == parts.len(),
        heads_match(parts, next, heap),
        heap.len() == 0,
    ensures
        taken(parts, next, heap, x) <==> union_of(parts).contains(x),
{
    assert forall|i: int| 0 <= i < next.len() implies done(parts, next, heap, i)
        == parts[i]@.len() by {
        let h = head_of(parts, next, i);
        assert(heap.count(h) == 0) by {
            if heap.count(h) > 0 {
                vstd::multiset::axiom_count_le_len(heap, h);
            }
        }
        assert(!has_head(parts, next, heap, i));
    }
    if taken(parts, next, heap, x) {
        let (i, j) = choose|i: int, j: int|
            0 <= i < next.len() && 0 <= j < done(parts, next, heap, i) && #[trigger] parts[i]@[j]
                == x;
        assert(parts[i]@.contains(x));
    }
    if union_of(parts).contains(x) {
        let i = choose|i: int| 0 <= i < parts.len() && (#[trigger] parts[i])@.contains(x);
        let j = choose|j: int| 0 <= j < parts[i]@.len() && parts[i]@[j] == x;
        assert(0 <= j < done(parts, next, heap, i) && parts[i]@[j] == x);
    }
}

impl<T: TotalOrder> SortedVec<T> {
    /// The union of several sorted sets. The least head among the parts
    /// leaves a min-heap first; a value that several parts hold is kept once.
    pub fn from_sorted_vecs(sorted_vecs: Vec<SortedVec<T>>) -> (sv: Self)
        requires
            all_sorted(sorted_vecs@),
        ensures
            sv.wf(),
            sv.contents() == union_of(sorted_vecs@),
    {
        let ghost parts = sorted_vecs@;
        let k = sorted_vecs.len();
        let mut heap: MinHeap<Head<T>> = MinHeap::new();
        let mut next: Vec<usize> = Vec::new();
        let mut p: usize = 0;
        while p < k
            invariant
                parts == sorted_vecs@,
                k == parts.len(),
                p <= k,
                next@.len() == p,
                heap.wf(),
                heads_match(parts, next@, heap@),
                forall|x: T| !taken(parts, next@, heap@, x),
            decreases k - p,
        {
            let ghost next0 = next@;
            let ghost heap0 = heap@;
            if sorted_vecs[p].items.len() > 0 {
                let first = Head { value: sorted_vecs[p].items[0], part: p };
                next.push(1);
                heap.push(first);
            } else {
                next.push(0);
            }
            proof {
                lemma_part_begun(parts, next0, heap0, next@, heap@);
            }
            p += 1;
        }
        let mut merged: Vec<T> = Vec::new();
        loop
            invariant
                parts == sorted_vecs@,
                all_sorted(parts),
                k == parts.len(),
                next@.len() == k,
                heap.wf(),
                heads_match(parts, next@, heap@),
                strictly_increasing(merged@),
                forall|x: T| merged@.contains(x) <==> taken(parts, next@, heap@, x),
                forall|m: int, e: Head<T>|
                    0 <= m < merged@.len() && #[trigger] heap@.contains(e) ==> !e.value.lt(
                        #[trigger] merged@[m],
                    ),
            ensures
                heap@.len() == 0,
                next@.len() == k,
                heads_match(parts, next@, heap@),
                strictly_increasing(merged@),
                forall|x: T| merged@.contains(x) <==> taken(parts, next@, heap@, x),
            decreases unread(parts, next@, k as int) + heap@.len(),
        {
            let ghost heap0 = heap@;
            let ghost next0 = next@;
            let ghost merged0 = merged@;
            proof {
                lemma_unread_bounds(parts, next0, k as int);
            }
            let e = match heap.pop() {
                Some(e) => e,
                None => {
                    break ;
                },
            };
            let part = e.part;
            let value = e.value;
            let idx = next[part];
            proof {
                assert(heap0.contains(e));
                assert(e == head_of(parts, next0, part as int));
            }
            let fresh = if merged.len() == 0 {
                true
            } else {
                match merged[merged.len() - 1].compare(&value) {
                    Comparison::Equal => false,
                    _ => true,
                }
            };
            if fresh {
                proof {
                    assert forall|m: int| 0 <= m < merged0.len() implies (#[trigger] merged0[m]).lt(
                        value,
                    ) by {
                        let last = merged0[merged0.len() - 1];
                        assert(!e.value.lt(merged0[m]));
                        T::lemma_connected(merged0[m], value);
                        if merged0[m] == value {
                            assert(m < merged0.len() - 1);
                            assert(merged0[m].lt(last));
                            assert(!e.value.lt(last));
                        }
                    }
                    lemma_push_keeps_increasing(merged0, value);
                }
                merged.push(value);
            }
            proof {
                assert forall|x: T| merged@.contains(x) <==> merged0.contains(x) || x == value by {
                    if fresh {
                        if merged@.contains(x) {
                            let m = choose|m: int| 0 <= m < merged@.len() && merged@[m] == x;
                            if m < merged0.len() {
                                assert(merged0[m] == x);
                            }
                        }
                        if merged0.contains(x) {
                            let m = choose|m: int| 0 <= m < merged0.len() && merged0[m] == x;
                            assert(merged@[m] == x);
                        }
                        if x == value {
                            assert(merged@[merged0.len() as int] == x);
                        }
                    } else {
                        assert(merged0[merged0.len() - 1] == value);
                    }
                }
                // What is left in the heap is not before what was merged.
                assert forall|m: int, f: Head<T>|
                    0 <= m < merged@.len() && #[trigger] heap@.contains(f) implies !f.value.lt(
                    #[trigger] merged@[m],
                ) by {
                    assert(heap0.contains(f));
                    if m < merged0.len() {
                        assert(merged@[m] == merged0[m]);
                    } else {
                        assert(merged@[m] == value);
                        assert(!f.lt(e));
                    }
                }
            }
            if idx < sorted_vecs[part].items.len() {
                let following = Head { value: sorted_vecs[part].items[idx], part };
                proof {
                    lemma_head_replaced(parts, next0, heap0, e);
                    lemma_unread_step(parts, next0, part as int, k as int);
                }
                next[part] = idx + 1;
                proof {
                    assert(next@ == next0.update(part as int, (idx + 1) as usize));
                    assert(following == head_of(parts, next@, part as int));
                }
                let ghost heap1 = heap@;
                heap.push(following);
                proof {
                    assert forall|m: int, f: Head<T>|
                        0 <= m < merged@.len() && #[trigger] heap@.contains(f) implies !f.value.lt(
                        #[trigger] merged@[m],
                    ) by {
                        if f == following {
                            // merged[m] is not after `value`, which is before the new head.
                            if m < merged0.len() {
                                assert(merged@[m] == merged0[m]);
                                assert(!e.value.lt(merged0[m]));
                                if following.value.lt(merged0[m]) {
                                    T::lemma_transitive(value, following.value, merged0[m]);
                                }
                            } else {
                                assert(merged@[m] == value);
                                lemma_asymmetric(value, following.value);
                            }
                        } else {
                            assert(heap1.contains(f));
                        }
                    }
                    assert forall|x: T| merged@.contains(x) <==> taken(
                        parts,
                        next@,
                        heap@,
                        x,
                    ) by {
                        assert(merged0.contains(x) <==> taken(parts, next0, heap0, x));
                    }
                }
            } else {
                proof {
                    lemma_head_dropped(parts, next0, heap0, e);
                    assert forall|x: T| merged@.contains(x) <==> taken(
                        parts,
                        next@,
                        heap@,
                        x,
                    ) by {
                        assert(merged0.contains(x) <==> taken(parts, next0, heap0, x));
                    }
                }
            }
        }
        let sv = Self { items: merged };
        proof {
            assert forall|x: T| sv.contents().contains(x) <==> union_of(parts).contains(x) by {
                lemma_all_taken(parts, next@, heap@, x);
            }
            assert(sv.contents() =~= union_of(parts));
        }
        sv
    }
}

/// However a set is cut into sorted parts, merging the parts gives the
/// sorted form of the whole set.
pub proof fn lemma_merge_is_sorted_whole<T: TotalOrder>(
    parts: Seq<SortedVec<T>>,
    merged: SortedVec<T>,
    whole: SortedVec<T>,
)
    requires
        merged.wf(),
        merged.contents() == union_of(parts),
        whole.wf(),
        whole.contents() == union_of(parts),
    ensures
        merged@ == whole@,
{
    lemma_sorted_form_unique(merged@, whole@);
}

} // verus!
