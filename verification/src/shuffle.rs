//! Random turns, to make a cube to solve.

use crate::cube::{solved, turned, turned_all, RubiksCube};
use crate::moves::Move;
use crate::paths::reachable_in;
use rand::rngs::ThreadRng;
use rand::Rng;
use vstd::prelude::*;

verus! {

/// The thread-local random number generator of `rand`. Nothing is known of
/// its state.
#[verifier::external_type_specification]
#[verifier::external_body]
pub struct ExThreadRng(ThreadRng);

/// A number drawn at random from `low..=high`.
///
/// Trusted: this is `Rng::random_range` of `rand`, which `gen_range` is
/// the older name of. Its documentation gives a value in the given range,
/// and a panic on an empty range. Which value comes is left open. The
/// generator also panics where the operating system gives it no entropy to
/// seed itself with; no argument rules that out.
#[verifier::external_body]
fn random_in_range(rng: &mut ThreadRng, low: u8, high: u8) -> (value: u8)
    requires
        low <= high,
    ensures
        low <= value <= high,
{
    rng.random_range(low..=high)
}

impl RubiksCube {
    /// The solved cube after `n` turns drawn at random.
    pub fn new_shuffled(n: u32, rng: &mut ThreadRng) -> (rc: Self)
        ensures
            reachable_in(solved(), rc@, n as int),
    {
        let mut self_ = Self::new();
        let moves = self_.shuffle(n, rng);
        proof {
            assert(turned_all(solved(), moves@) == self_@);
        }
        self_
    }

    /// Makes `n` turns drawn at random and returns them, first to last.
    pub fn shuffle(&mut self, n: u32, rng: &mut ThreadRng) -> (moves: Vec<Move>)
        ensures
            moves@.len() == n,
            final(self)@ == turned_all(old(self)@, moves@),
    {
        let mut moves: Vec<Move> = Vec::new();
        let mut i: u32 = 0;
        while i < n
            invariant
                i <= n,
                moves@.len() == i,
                self@ == turned_all(old(self)@, moves@),
            decreases n - i,
        {
            let move_ = self.shuffle_once(rng);
            proof {
                assert(moves@.push(move_).drop_last() =~= moves@);
            }
            moves.push(move_);
            i += 1;
        }
        moves
    }

    /// Makes one turn drawn at random and returns it.
    pub fn shuffle_once(&mut self, rng: &mut ThreadRng) -> (move_: Move)
        ensures
            final(self)@ == turned(old(self)@, move_),
    {
        let drawn = random_in_range(rng, 0, 17);
        let move_ = Move::from_index(drawn as usize);
        self.make_move(move_);
        move_
    }
}

} // verus!
