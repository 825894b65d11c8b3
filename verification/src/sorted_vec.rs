//! A set of ordered values, kept as a strictly increasing vector.

use crate::order::{lemma_asymmetric, Comparison, TotalOrder};
use vstd::prelude::*;

verus! {

/// Each element comes strictly before every later one. Such a sequence
/// holds no value twice.
pub open spec fn strictly_increasing<T: TotalOrder>(s: Seq<T>) -> bool {
    forall|i: int, j: int| 0 <= i < j < s.len() ==> (#[trigger] s[i]).lt(#[trigger] s[j])
}

/// Every element of `s` comes strictly before `x`.
pub open spec fn all_below<T: TotalOrder>(s: Seq<T>, x: T) -> bool {
    forall|k: int| 0 <= k < s.len() ==> (#[trigger] s[k]).lt(x)
}

/// `x` comes strictly before every element of `s`.
pub open spec fn all_above<T: TotalOrder>(s: Seq<T>, x: T) -> bool {
    forall|k: int| 0 <= k < s.len() ==> x.lt(#[trigger] s[k])
}

/// The values found in one prefix more than in the last.
pub proof fn lemma_take_step<T>(s: Seq<T>, i: int)
    requires
        0 <= i < s.len(),
    ensures
        s.take(i + 1).to_set() == s.take(i).to_set().insert(s[i]),
{
    assert(s.take(i + 1) =~= s.take(i).push(s[i]));
    s.take(i).lemma_push_to_set_commute(s[i]);
}

/// A strictly increasing sequence stays so when a value above all of it
/// is put at its end.
pub proof fn lemma_push_keeps_increasing<T: TotalOrder>(s: Seq<T>, x: T)
    requires
        strictly_increasing(s),
        all_below(s, x),
    ensures
        strictly_increasing(s.push(x)),
{
    let t = s.push(x);
    assert forall|i: int, j: int| 0 <= i < j < t.len() implies (#[trigger] t[i]).lt(
        #[trigger] t[j],
    ) by {
        if j < s.len() {
            assert(s[i].lt(s[j]));
        } else {
            assert(s[i].lt(x));
        }
    }
}

/// What lies below `x` lies below everything that `x` lies below.
pub proof fn lemma_all_below_rises<T: TotalOrder>(s: Seq<T>, x: T, y: T)
    requires
        all_below(s, x),
        x.lt(y),
    ensures
        all_below(s, y),
        all_below(s.push(x), y),
{
    assert forall|k: int| 0 <= k < s.len() implies (#[trigger] s[k]).lt(y) by {
        T::lemma_transitive(s[k], x, y);
    }
    let t = s.push(x);
    assert forall|k: int| 0 <= k < t.len() implies (#[trigger] t[k]).lt(y) by {
        if k < s.len() {
            assert(t[k] == s[k]);
        }
    }
}

/// Two strictly increasing sequences with the same values are the same
/// sequence: a set has one sorted form.
pub proof fn lemma_sorted_form_unique<T: TotalOrder>(a: Seq<T>, b: Seq<T>)
    requires
        strictly_increasing(a),
        strictly_increasing(b),
        a.to_set() == b.to_set(),
    ensures
        a == b,
    decreases a.len(),
{
    if a.len() == 0 {
        if b.len() > 0 {
            assert(b.contains(b[0]));
            assert(b.to_set().contains(b[0]));
            assert(a.contains(b[0]));
        }
        assert(a =~= b);
    } else if b.len() == 0 {
        assert(a.contains(a[0]));
        assert(a.to_set().contains(a[0]));
        assert(b.contains(a[0]));
    } else {
        let x = a.last();
        let y = b.last();
        // The largest values agree.
        assert(a.contains(x));
        assert(a.to_set().contains(x));
        assert(b.contains(x));
        let p = choose|p: int| 0 <= p < b.len() && b[p] == x;
        assert(b.contains(y));
        assert(b.to_set().contains(y));
        assert(a.contains(y));
        let q = choose|q: int| 0 <= q < a.len() && a[q] == y;
        if p < b.len() - 1 {
            assert(b[p].lt(b[b.len() - 1]));
            if q < a.len() - 1 {
                assert(a[q].lt(a[a.len() - 1]));
                lemma_asymmetric(x, y);
            }
        }
        assert(x == y) by {
            if p < b.len() - 1 {
                assert(q == a.len() - 1);
            }
        }
        let a0 = a.drop_last();
        let b0 = b.drop_last();
        assert forall|v: T| a0.to_set().contains(v) <==> b0.to_set().contains(v) by {
            if a0.contains(v) {
                let k = choose|k: int| 0 <= k < a0.len() && a0[k] == v;
                assert(a[k] == v);
                assert(a[k].lt(a[a.len() - 1]));
                lemma_asymmetric(v, x);
                assert(a.contains(v));
                assert(a.to_set().contains(v));
                assert(b.contains(v));
                let m = choose|m: int| 0 <= m < b.len() && b[m] == v;
                assert(m < b.len() - 1);
                assert(b0[m] == v);
                assert(b0.contains(v));
            }
            if b0.contains(v) {
                let k = choose|k: int| 0 <= k < b0.len() && b0[k] == v;
                assert(b[k] == v);
                assert(b[k].lt(b[b.len() - 1]));
                lemma_asymmetric(v, y);
                assert(b.contains(v));
                assert(b.to_set().contains(v));
                assert(a.contains(v));
                let m = choose|m: int| 0 <= m < a.len() && a[m] == v;
                assert(m < a.len() - 1);
                assert(a0[m] == v);
                assert(a0.contains(v));
            }
        }
        assert(a0.to_set() =~= b0.to_set());
        assert(strictly_increasing(a0)) by {
            assert forall|i: int, j: int| 0 <= i < j < a0.len() implies (#[trigger] a0[i]).lt(
                #[trigger] a0[j],
            ) by {
                assert(a[i].lt(a[j]));
            }
        }
        assert(strictly_increasing(b0)) by {
            assert forall|i: int, j: int| 0 <= i < j < b0.len() implies (#[trigger] b0[i]).lt(
                #[trigger] b0[j],
            ) by {
                assert(b[i].lt(b[j]));
            }
        }
        lemma_sorted_form_unique(a0, b0);
        assert(a =~= a0.push(x));
        assert(b =~= b0.push(y));
    }
}

/// A strictly increasing sequence holds no value twice.
pub proof fn lemma_increasing_is_distinct<T: TotalOrder>(s: Seq<T>)
    requires
        strictly_increasing(s),
    ensures
        forall|i: int, j: int| 0 <= i < s.len() && 0 <= j < s.len() && i != j ==> s[i] != s[j],
{
    assert forall|i: int, j: int| 0 <= i < s.len() && 0 <= j < s.len() && i != j implies s[i]
        != s[j] by {
        if i < j {
            assert(s[i].lt(s[j]));
            lemma_asymmetric(s[i], s[j]);
        } else {
            assert(s[j].lt(s[i]));
            lemma_asymmetric(s[j], s[i]);
        }
    }
}

/// A set of values in sorted order, each value once.
#[derive(Debug, Clone)]
pub struct SortedVec<T: TotalOrder> {
    pub items: Vec<T>,
}

impl<T: TotalOrder> View for SortedVec<T> {
    type V = Seq<T>;

    open spec fn view(&self) -> Seq<T> {
        self.items@
    }
}

/// The union of two sorted sets, in sorted order.
pub fn merge_two<T: TotalOrder>(a: &Vec<T>, b: &Vec<T>) -> (out: Vec<T>)
    requires
        strictly_increasing(a@),
        strictly_increasing(b@),
    ensures
        strictly_increasing(out@),
        out@.to_set() == a@.to_set().union(b@.to_set()),
{
    let mut out: Vec<T> = Vec::new();
    let mut i: usize = 0;
    let mut j: usize = 0;
    proof {
        assert(out@.to_set() =~= a@.take(0).to_set().union(b@.take(0).to_set()));
    }
    while i < a.len() || j < b.len()
        invariant
            i <= a.len(),
            j <= b.len(),
            strictly_increasing(a@),
            strictly_increasing(b@),
            strictly_increasing(out@),
            i < a.len() ==> all_below(out@, a@[i as int]),
            j < b.len() ==> all_below(out@, b@[j as int]),
            out@.to_set() == a@.take(i as int).to_set().union(b@.take(j as int).to_set()),
        decreases a.len() - i + b.len() - j,
    {
        let ghost before = out@;
        let take_a: bool;
        let take_b: bool;
        if j >= b.len() {
            take_a = true;
            take_b = false;
        } else if i >= a.len() {
            take_a = false;
            take_b = true;
        } else {
            match a[i].compare(&b[j]) {
                Comparison::Less => {
                    take_a = true;
                    take_b = false;
                },
                Comparison::Greater => {
                    take_a = false;
                    take_b = true;
                },
                Comparison::Equal => {
                    take_a = true;
                    take_b = true;
                },
            }
        }
        let x = if take_a {
            a[i]
        } else {
            b[j]
        };
        proof {
            lemma_push_keeps_increasing(before, x);
            before.lemma_push_to_set_commute(x);
            if take_a {
                lemma_take_step(a@, i as int);
                if i + 1 < a.len() {
                    assert(a@[i as int].lt(a@[i + 1]));
                    lemma_all_below_rises(before, x, a@[i + 1]);
                }
            }
            if take_b {
                lemma_take_step(b@, j as int);
                if j + 1 < b.len() {
                    assert(b@[j as int].lt(b@[j + 1]));
                    lemma_all_below_rises(before, x, b@[j + 1]);
                }
            }
            if take_a && !take_b && j < b.len() {
                lemma_all_below_rises(before, x, b@[j as int]);
            }
            if take_b && !take_a && i < a.len() {
                lemma_all_below_rises(before, x, a@[i as int]);
            }
        }
        out.push(x);
        if take_a {
            i += 1;
        }
        if take_b {
            j += 1;
        }
        proof {
            assert(out@.to_set() =~= a@.take(i as int).to_set().union(b@.take(j as int).to_set()));
        }
    }
    proof {
        assert(a@.take(i as int) =~= a@);
        assert(b@.take(j as int) =~= b@);
    }
    out
}

/// The values of `v[lo..hi]`, each once, in sorted order.
pub fn sort_range<T: TotalOrder>(v: &Vec<T>, lo: usize, hi: usize) -> (out: Vec<T>)
    requires
        lo <= hi <= v.len(),
    ensures
        strictly_increasing(out@),
        out@.to_set() == v@.subrange(lo as int, hi as int).to_set(),
    decreases hi - lo,
{
    let ghost part = v@.subrange(lo as int, hi as int);
    if hi - lo == 0 {
        let out: Vec<T> = Vec::new();
        proof {
            assert(out@.to_set() =~= part.to_set());
        }
        out
    } else if hi - lo == 1 {
        let mut out: Vec<T> = Vec::new();
        out.push(v[lo]);
        proof {
            assert(out@ =~= part);
        }
        out
    } else {
        let mid = lo + (hi - lo) / 2;
        let left = sort_range(v, lo, mid);
        let right = sort_range(v, mid, hi);
        let out = merge_two(&left, &right);
        proof {
            let l = v@.subrange(lo as int, mid as int);
            let r = v@.subrange(mid as int, hi as int);
            assert(part =~= l + r);
            vstd::seq_lib::seq_to_set_distributes_over_add(l, r);
        }
        out
    }
}

impl<T: TotalOrder> SortedVec<T> {
    /// The values are in strictly increasing order.
    pub open spec fn wf(self) -> bool {
        strictly_increasing(self@)
    }

    /// The set that the vector stands for.
    pub open spec fn contents(self) -> Set<T> {
        self@.to_set()
    }

    /// The empty set.
    pub fn new() -> (sv: Self)
        ensures
            sv.wf(),
            sv@ == Seq::<T>::empty(),
    {
        Self { items: Vec::new() }
    }

    /// The set of the values of a vector: sorted, each value once.
    pub fn from_vec(items: Vec<T>) -> (sv: Self)
        ensures
            sv.wf(),
            sv.contents() == items@.to_set(),
    {
        let n = items.len();
        let sorted = sort_range(&items, 0, n);
        proof {
            assert(items@.subrange(0, n as int) =~= items@);
        }
        Self { items: sorted }
    }

    /// The set of the values of an array: sorted, each value once.
    pub fn from_array<const N: usize>(items: [T; N]) -> (sv: Self)
        ensures
            sv.wf(),
            sv.contents() == items@.to_set(),
    {
        let mut v: Vec<T> = Vec::new();
        let mut i: usize = 0;
        while i < N
            invariant
                i <= N,
                v@ == items@.take(i as int),
            decreases N - i,
        {
            v.push(items[i]);
            proof {
                assert(v@ =~= items@.take(i + 1));
            }
            i += 1;
        }
        proof {
            assert(items@.take(N as int) =~= items@);
        }
        Self::from_vec(v)
    }

    /// How many values the set holds.
    pub fn len(&self) -> (n: usize)
        ensures
            n == self@.len(),
    {
        self.items.len()
    }

    /// Adds a value to the set; a value already there is left alone.
    pub fn insert(&mut self, item: T)
        requires
            old(self).wf(),
        ensures
            final(self).wf(),
            final(self).contents() == old(self).contents().insert(item),
            old(self)@.contains(item) ==> final(self)@ == old(self)@,
            !old(self)@.contains(item) ==> final(self)@.len() == old(self)@.len() + 1,
    {
        match self.index_of(&item) {
            Ok(_) => {
                proof {
                    assert(self.contents().insert(item) =~= self.contents());
                }
            },
            Err(index) => {
                let ghost before = self@;
                self.items.insert(index, item);
                proof {
                    let after = self@;
                    let at = index as int;
                    assert(after == before.insert(at, item));
                    assert forall|i: int, j: int| 0 <= i < j < after.len() implies (
                    #[trigger] after[i]).lt(#[trigger] after[j]) by {
                        if j < at {
                            assert(before[i].lt(before[j]));
                        } else if j == at {
                            assert(before.take(at)[i].lt(item));
                        } else if i < at {
                            assert(before[i].lt(before[j - 1]));
                        } else if i == at {
                            assert(item.lt(before.skip(at)[j - 1 - at]));
                        } else {
                            assert(before[i - 1].lt(before[j - 1]));
                        }
                    }
                    assert forall|v: T| after.to_set().contains(v) <==> before.to_set().insert(
                        item,
                    ).contains(v) by {
                        if after.contains(v) {
                            let k = choose|k: int| 0 <= k < after.len() && after[k] == v;
                            if k < at {
                                assert(before[k] == v);
                                assert(before.contains(v));
                            } else if k > at {
                                assert(before[k - 1] == v);
                                assert(before.contains(v));
                            }
                        }
                        if before.contains(v) {
                            let k = choose|k: int| 0 <= k < before.len() && before[k] == v;
                            if k < at {
                                assert(after[k] == v);
                            } else {
                                assert(after[k + 1] == v);
                            }
                            assert(after.contains(v));
                        }
                        if v == item {
                            assert(after[at] == v);
                            assert(after.contains(v));
                        }
                    }
                    assert(after.to_set() =~= before.to_set().insert(item));
                }
            },
        }
    }

    /// Finds a value by binary search: `Ok` with the index where it sits,
    /// or `Err` with the index before which it would have to go.
    pub fn index_of(&self, target: &T) -> (found: Result<usize, usize>)
        requires
            self.wf(),
        ensures
            match found {
                Ok(i) => i < self@.len() && self@[i as int] == *target,
                Err(i) => {
                    &&& i <= self@.len()
                    &&& !self@.contains(*target)
                    &&& all_below(self@.take(i as int), *target)
                    &&& all_above(self@.skip(i as int), *target)
                },
            },
    {
        let mut l: usize = 0;
        let mut r: usize = self.len();
        while l < r
            invariant
                l <= r <= self@.len(),
                self.wf(),
                all_below(self@.take(l as int), *target),
                all_above(self@.skip(r as int), *target),
            decreases r - l,
        {
            let m = l + (r - l) / 2;
            match self.items[m].compare(target) {
                Comparison::Equal => {
                    return Ok(m);
                },
                Comparison::Less => {
                    proof {
                        let low = self@.take(m + 1);
                        assert forall|k: int| 0 <= k < low.len() implies (#[trigger] low[k]).lt(
                            *target,
                        ) by {
                            if k < m {
                                assert(self@[k].lt(self@[m as int]));
                                T::lemma_transitive(self@[k], self@[m as int], *target);
                            }
                        }
                    }
                    l = m + 1;
                },
                Comparison::Greater => {
                    proof {
                        let high = self@.skip(m as int);
                        assert forall|k: int| 0 <= k < high.len() implies target.lt(
                            #[trigger] high[k],
                        ) by {
                            if k > 0 {
                                assert(self@[m as int].lt(self@[m + k]));
                                T::lemma_transitive(*target, self@[m as int], self@[m + k]);
                            }
                        }
                    }
                    r = m;
                },
            }
        }
        proof {
            if self@.contains(*target) {
                let k = choose|k: int| 0 <= k < self@.len() && self@[k] == *target;
                T::lemma_irreflexive(*target);
                if k < l {
                    assert(self@.take(l as int)[k].lt(*target));
                } else {
                    assert(target.lt(self@.skip(l as int)[k - l]));
                }
            }
        }
        Err(l)
    }

    /// The least value that both sets hold, if they hold one in common.
    pub fn intersection_with(&self, other: &Self) -> (common: Option<T>)
        requires
            self.wf(),
            other.wf(),
        ensures
            match common {
                Some(x) => {
                    &&& self@.contains(x)
                    &&& other@.contains(x)
                    &&& forall|y: T|
                        self@.contains(y) && other@.contains(y) ==> x.lt(y) || x == y
                },
                None => self.contents().disjoint(other.contents()),
            },
            common is Some <==> exists|y: T| self@.contains(y) && other@.contains(y),
    {
        let mut index_l: usize = 0;
        let mut index_r: usize = 0;
        while index_l < self.len() && index_r < other.len()
            invariant
                index_l <= self@.len(),
                index_r <= other@.len(),
                self.wf(),
                other.wf(),
                forall|i: int, j: int|
                    0 <= i < index_l && 0 <= j < other@.len() ==> #[trigger] self@[i]
                        != #[trigger] other@[j],
                forall|i: int, j: int|
                    0 <= i < self@.len() && 0 <= j < index_r ==> #[trigger] self@[i]
                        != #[trigger] other@[j],
            decreases self@.len() - index_l + other@.len() - index_r,
        {
            let a = self.items[index_l];
            let b = other.items[index_r];
            match a.compare(&b) {
                Comparison::Equal => {
                    proof {
                        assert(self@[index_l as int] == a);
                        assert(other@[index_r as int] == a);
                        assert(self@.contains(a) && other@.contains(a));
                        assert forall|y: T|
                            self@.contains(y) && other@.contains(y) implies a.lt(y) || a == y by {
                            let i = choose|i: int| 0 <= i < self@.len() && self@[i] == y;
                            let j = choose|j: int| 0 <= j < other@.len() && other@[j] == y;
                            assert(self@[i] == other@[j]);
                            if i > index_l {
                                assert(self@[index_l as int].lt(self@[i]));
                            }
                        }
                    }
                    return Some(a);
                },
                Comparison::Less => {
                    proof {
                        assert forall|j: int| 0 <= j < other@.len() implies self@[index_l as int]
                            != #[trigger] other@[j] by {
                            if j >= index_r {
                                if j > index_r {
                                    assert(other@[index_r as int].lt(other@[j]));
                                    T::lemma_transitive(a, b, other@[j]);
                                }
                                lemma_asymmetric(a, other@[j]);
                            }
                        }
                    }
                    index_l += 1;
                },
                Comparison::Greater => {
                    proof {
                        assert forall|i: int| 0 <= i < self@.len() implies #[trigger] self@[i]
                            != other@[index_r as int] by {
                            if i >= index_l {
                                if i > index_l {
                                    assert(self@[index_l as int].lt(self@[i]));
                                    T::lemma_transitive(b, a, self@[i]);
                                }
                                lemma_asymmetric(b, self@[i]);
                            }
                        }
                    }
                    index_r += 1;
                },
            }
        }
        proof {
            assert forall|y: T| !(self.contents().contains(y) && other.contents().contains(y)) by {
                if self@.contains(y) && other@.contains(y) {
                    let i = choose|i: int| 0 <= i < self@.len() && self@[i] == y;
                    let j = choose|j: int| 0 <= j < other@.len() && other@[j] == y;
                    assert(self@[i] == other@[j]);
                }
            }
        }
        None
    }
}

} // verus!
