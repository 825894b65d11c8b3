//! Cyclic shift of four array slots.

use vstd::prelude::*;

verus! {

/// The sequence after the four assignments of a rotation, made in turn:
/// slot `i4` takes what `i3` held, `i3` what `i2` held, `i2` what `i1` held,
/// and `i1` what `i4` held at the start.
#[verifier::opaque]
pub open spec fn rotated4<T>(s: Seq<T>, i1: int, i2: int, i3: int, i4: int) -> Seq<T> {
    let s1 = s.update(i4, s[i3]);
    let s2 = s1.update(i3, s1[i2]);
    let s3 = s2.update(i2, s2[i1]);
    s3.update(i1, s[i4])
}

/// Where the content of slot `i` comes from when four distinct slots rotate.
pub open spec fn cycle4_source(i: int, i1: int, i2: int, i3: int, i4: int) -> int {
    if i == i2 {
        i1
    } else if i == i3 {
        i2
    } else if i == i4 {
        i3
    } else if i == i1 {
        i4
    } else {
        i
    }
}

/// On four distinct slots a rotation is the four-cycle
/// `i1 -> i2 -> i3 -> i4 -> i1`; every other slot keeps its content.
pub proof fn lemma_rotated4_is_cycle<T>(s: Seq<T>, i1: int, i2: int, i3: int, i4: int)
    requires
        0 <= i1 < s.len(),
        0 <= i2 < s.len(),
        0 <= i3 < s.len(),
        0 <= i4 < s.len(),
        i1 != i2 && i1 != i3 && i1 != i4 && i2 != i3 && i2 != i4 && i3 != i4,
    ensures
        rotated4(s, i1, i2, i3, i4).len() == s.len(),
        forall|i: int|
            0 <= i < s.len() ==> #[trigger] rotated4(s, i1, i2, i3, i4)[i] == s[cycle4_source(
                i,
                i1,
                i2,
                i3,
                i4,
            )],
{
    reveal(rotated4);
}

/// Arrays whose slots can be rotated four at a time.
pub trait ExtArrayRotate4 {
    /// How many slots the array has.
    spec fn slot_count(&self) -> nat;

    /// Shifts the contents of four slots one step along
    /// `i1 -> i2 -> i3 -> i4 -> i1`.
    fn rotate4(&mut self, i1: usize, i2: usize, i3: usize, i4: usize)
        requires
            i1 < old(self).slot_count(),
            i2 < old(self).slot_count(),
            i3 < old(self).slot_count(),
            i4 < old(self).slot_count(),
    ;
}

impl<T: Copy, const L: usize> ExtArrayRotate4 for [T; L] {
    open spec fn slot_count(&self) -> nat {
        L as nat
    }

    fn rotate4(&mut self, i1: usize, i2: usize, i3: usize, i4: usize)
        ensures
            final(self)@ == rotated4(old(self)@, i1 as int, i2 as int, i3 as int, i4 as int),
    {
        proof {
            reveal(rotated4);
        }
        let temp = self[i4];
        self[i4] = self[i3];
        self[i3] = self[i2];
        self[i2] = self[i1];
        self[i1] = temp;
    }
}

} // verus!
