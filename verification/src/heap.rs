//! A binary min-heap over a strict total order.

use crate::order::{lemma_asymmetric, Comparison, TotalOrder};
use vstd::multiset::Multiset;
use vstd::prelude::*;

verus! {

/// The slot above slot `k` in the heap's tree.
pub open spec fn parent(k: int) -> int {
    (k - 1) / 2
}

/// No slot holds a value that comes before the value in the slot above it.
pub open spec fn heap_ordered<T: TotalOrder>(s: Seq<T>) -> bool {
    forall|k: int| 0 < k < s.len() ==> !(#[trigger] s[k]).lt(s[parent(k)])
}

/// Heap order holds between every slot but `i` and the slot above it.
pub open spec fn ordered_but_above<T: TotalOrder>(s: Seq<T>, i: int) -> bool {
    forall|k: int| 0 < k < s.len() && k != i ==> !(#[trigger] s[k]).lt(s[parent(k)])
}

/// Heap order holds between every slot and the slot above it, but for the
/// slots right under `i`.
pub open spec fn ordered_but_below<T: TotalOrder>(s: Seq<T>, i: int) -> bool {
    forall|k: int| 0 < k < s.len() && parent(k) != i ==> !(#[trigger] s[k]).lt(s[parent(k)])
}

/// The slots right under `i` hold nothing that comes before the value in
/// the slot above `i`.
pub open spec fn skips_in_order<T: TotalOrder>(s: Seq<T>, i: int) -> bool {
    i > 0 ==> forall|k: int|
        0 < k < s.len() && parent(k) == i ==> !(#[trigger] s[k]).lt(s[parent(i)])
}

/// The sequence with the values of two slots exchanged.
pub open spec fn swapped<T>(s: Seq<T>, i: int, j: int) -> Seq<T> {
    s.update(i, s[j]).update(j, s[i])
}

/// "Not after" chains: if `b` is not before `a` and `c` is not before `b`,
/// then `c` is not before `a`.
pub proof fn lemma_not_before_chain<T: TotalOrder>(a: T, b: T, c: T)
    requires
        !b.lt(a),
        !c.lt(b),
    ensures
        !c.lt(a),
{
    if c.lt(a) {
        T::lemma_connected(a, b);
        if a.lt(b) {
            T::lemma_transitive(c, a, b);
        }
    }
}

/// Exchanging two slots keeps what the sequence holds.
pub proof fn lemma_swapped_holds_same<T>(s: Seq<T>, i: int, j: int)
    requires
        0 <= i < s.len(),
        0 <= j < s.len(),
    ensures
        swapped(s, i, j).to_multiset() == s.to_multiset(),
        swapped(s, i, j).len() == s.len(),
{
    broadcast use vstd::seq_lib::to_multiset_update;

    let t = s.update(i, s[j]);
    assert(t.to_multiset() == s.to_multiset().insert(s[j]).remove(s[i]));
    assert(swapped(s, i, j).to_multiset() == t.to_multiset().insert(s[i]).remove(t[j]));
    if i == j {
        assert(swapped(s, i, j) =~= s);
    } else {
        assert(t[j] == s[j]);
        s.to_multiset_ensures();
        assert(s.contains(s[i]));
        assert(s.contains(s[j]));
        assert(swapped(s, i, j).to_multiset() =~= s.to_multiset());
    }
}

/// In a heap the first slot holds a least value.
pub proof fn lemma_root_is_least<T: TotalOrder>(s: Seq<T>, k: int)
    requires
        heap_ordered(s),
        0 <= k < s.len(),
    ensures
        !s[k].lt(s[0]),
    decreases k,
{
    if k == 0 {
        T::lemma_irreflexive(s[0]);
    } else {
        lemma_root_is_least(s, parent(k));
        lemma_not_before_chain(s[0], s[parent(k)], s[k]);
    }
}

/// A min-heap: `pop` hands out the values least first.
pub struct MinHeap<T: TotalOrder> {
    pub items: Vec<T>,
}

impl<T: TotalOrder> View for MinHeap<T> {
    type V = Multiset<T>;

    open spec fn view(&self) -> Multiset<T> {
        self.items@.to_multiset()
    }
}

impl<T: TotalOrder> MinHeap<T> {
    /// The slots are in heap order.
    pub open spec fn wf(self) -> bool {
        heap_ordered(self.items@)
    }

    /// The empty heap.
    pub fn new() -> (heap: Self)
        ensures
            heap.wf(),
            heap@ == Multiset::<T>::empty(),
            heap.items@.len() == 0,
    {
        let heap = Self { items: Vec::new() };
        proof {
            assert(heap.items@ =~= Seq::<T>::empty());
            heap.items@.to_multiset_ensures();
            assert(heap@ =~= Multiset::<T>::empty());
        }
        heap
    }

    /// How many values the heap holds.
    pub fn len(&self) -> (n: usize)
        ensures
            n == self@.len(),
            n == self.items@.len(),
    {
        proof {
            self.items@.to_multiset_ensures();
        }
        self.items.len()
    }

    fn swap(&mut self, i: usize, j: usize)
        requires
            i < old(self).items@.len(),
            j < old(self).items@.len(),
        ensures
            final(self).items@ == swapped(old(self).items@, i as int, j as int),
            final(self)@ == old(self)@,
    {
        proof {
            lemma_swapped_holds_same(self.items@, i as int, j as int);
        }
        let a = self.items[i];
        let b = self.items[j];
        self.items[i] = b;
        self.items[j] = a;
    }

    /// Adds a value.
    pub fn push(&mut self, item: T)
        requires
            old(self).wf(),
        ensures
            final(self).wf(),
            final(self)@ == old(self)@.insert(item),
    {
        proof {
            self.items@.to_multiset_ensures();
        }
        self.items.push(item);
        let mut i: usize = self.items.len() - 1;
        while i > 0
            invariant
                i < self.items@.len(),
                self@ == old(self)@.insert(item),
                ordered_but_above(self.items@, i as int),
                skips_in_order(self.items@, i as int),
            ensures
                heap_ordered(self.items@),
                self@ == old(self)@.insert(item),
            decreases i,
        {
            let p = (i - 1) / 2;
            let lower = self.items[i];
            let upper = self.items[p];
            match lower.compare(&upper) {
                Comparison::Less => {},
                _ => {
                    break ;
                },
            }
            let ghost s = self.items@;
            self.swap(i, p);
            proof {
                let t = self.items@;
                let ii = i as int;
                let pp = p as int;
                lemma_asymmetric(lower, upper);
                assert forall|k: int| 0 < k < t.len() && k != pp implies !(#[trigger] t[k]).lt(
                    t[parent(k)],
                ) by {
                    if k == ii {
                    } else if parent(k) == pp {
                        // The other slot under `p`: it was not before `upper`.
                        assert(!s[k].lt(s[parent(k)]));
                        if s[k].lt(lower) {
                            T::lemma_transitive(s[k], lower, upper);
                        }
                    } else if parent(k) == ii {
                        assert(!s[k].lt(s[parent(ii)]));
                    } else {
                        assert(!s[k].lt(s[parent(k)]));
                    }
                }
                if pp > 0 {
                    assert forall|k: int|
                        0 < k < t.len() && parent(k) == pp implies !(#[trigger] t[k]).lt(
                        t[parent(pp)],
                    ) by {
                        assert(!s[pp].lt(s[parent(pp)]));
                        if k != ii {
                            assert(!s[k].lt(s[parent(k)]));
                            lemma_not_before_chain(s[parent(pp)], s[pp], s[k]);
                        }
                    }
                }
            }
            i = p;
        }
    }

    /// Takes out a least value; `None` when the heap is empty.
    pub fn pop(&mut self) -> (least: Option<T>)
        requires
            old(self).wf(),
        ensures
            final(self).wf(),
            match least {
                Some(x) => {
                    &&& old(self)@.contains(x)
                    &&& final(self)@ == old(self)@.remove(x)
                    &&& forall|y: T| old(self)@.contains(y) ==> !y.lt(x)
                },
                None => old(self)@.len() == 0 && final(self)@ == old(self)@,
            },
    {
        proof {
            self.items@.to_multiset_ensures();
        }
        let n = self.items.len();
        if n == 0 {
            return None;
        }
        let ghost s0 = self.items@;
        let least = self.items[0];
        proof {
            assert(s0.contains(s0[0]));
            assert forall|y: T| s0.to_multiset().contains(y) implies !y.lt(least) by {
                assert(s0.contains(y));
                let k = choose|k: int| 0 <= k < s0.len() && s0[k] == y;
                lemma_root_is_least(s0, k);
            }
        }
        self.swap(0, n - 1);
        let ghost s1 = self.items@;
        self.items.pop();
        proof {
            let s2 = self.items@;
            assert(s2 =~= s1.remove(n - 1));
            s1.to_multiset_ensures();
            assert(s1[n - 1] == least);
            assert(s2.to_multiset() =~= s0.to_multiset().remove(least));
            assert forall|k: int| 0 < k < s2.len() && parent(k) != 0 implies !(#[trigger] s2[k]).lt(
                s2[parent(k)],
            ) by {
                assert(!s0[k].lt(s0[parent(k)]));
            }
        }
        let m = n - 1;
        let mut i: usize = 0;
        while i < m / 2
            invariant
                m == self.items@.len(),
                m < usize::MAX,
                i <= m,
                self@ == old(self)@.remove(least),
                ordered_but_below(self.items@, i as int),
                skips_in_order(self.items@, i as int),
            ensures
                heap_ordered(self.items@),
                self@ == old(self)@.remove(least),
            decreases m - i,
        {
            let l = 2 * i + 1;
            let r = l + 1;
            let mut c = l;
            if r < m {
                match self.items[r].compare(&self.items[l]) {
                    Comparison::Less => {
                        c = r;
                    },
                    _ => {},
                }
            }
            let ghost s = self.items@;
            let ghost ii = i as int;
            let ghost cc = c as int;
            let ghost other = if c == l {
                r as int
            } else {
                l as int
            };
            proof {
                assert(parent(l as int) == ii && parent(r as int) == ii);
                assert forall|k: int| 0 < k < s.len() && parent(k) == ii implies k == l || k
                    == r by {}
                // The chosen slot holds the lesser of the two under `i`.
                if other < s.len() {
                    if c == r {
                        lemma_asymmetric(s[r as int], s[l as int]);
                    }
                    assert(!s[other].lt(s[cc]));
                }
            }
            let upper = self.items[i];
            let lower = self.items[c];
            match lower.compare(&upper) {
                Comparison::Less => {},
                _ => {
                    proof {
                        assert forall|k: int| 0 < k < s.len() implies !(#[trigger] s[k]).lt(
                            s[parent(k)],
                        ) by {
                            if parent(k) == ii {
                                if k != cc {
                                    lemma_not_before_chain(upper, lower, s[k]);
                                }
                            }
                        }
                    }
                    break ;
                },
            }
            self.swap(i, c);
            proof {
                let t = self.items@;
                lemma_asymmetric(lower, upper);
                assert forall|k: int|
                    0 < k < t.len() && parent(k) != cc implies !(#[trigger] t[k]).lt(
                    t[parent(k)],
                ) by {
                    if k == cc {
                    } else if parent(k) == ii {
                        assert(k == other);
                    } else if k == ii {
                        assert(!s[cc].lt(s[parent(ii)]));
                    } else {
                        assert(!s[k].lt(s[parent(k)]));
                    }
                }
                assert forall|k: int|
                    0 < k < t.len() && parent(k) == cc implies !(#[trigger] t[k]).lt(
                    t[parent(cc)],
                ) by {
                    assert(!s[k].lt(s[parent(k)]));
                }
            }
            i = c;
        }
        Some(least)
    }
}

} // verus!
