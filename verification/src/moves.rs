//! The eighteen quarter turns.

use vstd::prelude::*;

verus! {

/// A quarter turn. Each turn is followed by the turn that undoes it. The
/// first twelve turn one face; `X`, `Y` and `Z` turn the whole cube about
/// the axis through its left and right, its top and bottom, and its front
/// and back faces.
#[derive(Debug, Clone, Copy, PartialEq, Eq, PartialOrd, Ord)]
pub enum Move {
    Front,
    FrontS,
    Back,
    BackS,
    Left,
    LeftS,
    Right,
    RightS,
    Top,
    TopS,
    Bottom,
    BottomS,
    X,
    Xs,
    Y,
    Ys,
    Z,
    Zs,
}

/// Every turn, in the order in which the children of a cube are listed.
pub const ALL_MOVES: [Move; 18] = [
    Move::Front,
    Move::FrontS,
    Move::Back,
    Move::BackS,
    Move::Left,
    Move::LeftS,
    Move::Right,
    Move::RightS,
    Move::Top,
    Move::TopS,
    Move::Bottom,
    Move::BottomS,
    Move::X,
    Move::Xs,
    Move::Y,
    Move::Ys,
    Move::Z,
    Move::Zs,
];

/// The turn at a position of the listing; `Front` stands in outside it.
pub open spec fn move_at(i: int) -> Move {
    if i == 1 {
        Move::FrontS
    } else if i == 2 {
        Move::Back
    } else if i == 3 {
        Move::BackS
    } else if i == 4 {
        Move::Left
    } else if i == 5 {
        Move::LeftS
    } else if i == 6 {
        Move::Right
    } else if i == 7 {
        Move::RightS
    } else if i == 8 {
        Move::Top
    } else if i == 9 {
        Move::TopS
    } else if i == 10 {
        Move::Bottom
    } else if i == 11 {
        Move::BottomS
    } else if i == 12 {
        Move::X
    } else if i == 13 {
        Move::Xs
    } else if i == 14 {
        Move::Y
    } else if i == 15 {
        Move::Ys
    } else if i == 16 {
        Move::Z
    } else if i == 17 {
        Move::Zs
    } else {
        Move::Front
    }
}

impl Move {
    /// The position of a turn in the listing.
    pub open spec fn position(self) -> int {
        match self {
            Move::Front => 0,
            Move::FrontS => 1,
            Move::Back => 2,
            Move::BackS => 3,
            Move::Left => 4,
            Move::LeftS => 5,
            Move::Right => 6,
            Move::RightS => 7,
            Move::Top => 8,
            Move::TopS => 9,
            Move::Bottom => 10,
            Move::BottomS => 11,
            Move::X => 12,
            Move::Xs => 13,
            Move::Y => 14,
            Move::Ys => 15,
            Move::Z => 16,
            Move::Zs => 17,
        }
    }

    /// The turn that undoes this one.
    pub open spec fn inverse(self) -> Move {
        match self {
            Move::Front => Move::FrontS,
            Move::FrontS => Move::Front,
            Move::Back => Move::BackS,
            Move::BackS => Move::Back,
            Move::Left => Move::LeftS,
            Move::LeftS => Move::Left,
            Move::Right => Move::RightS,
            Move::RightS => Move::Right,
            Move::Top => Move::TopS,
            Move::TopS => Move::Top,
            Move::Bottom => Move::BottomS,
            Move::BottomS => Move::Bottom,
            Move::X => Move::Xs,
            Move::Xs => Move::X,
            Move::Y => Move::Ys,
            Move::Ys => Move::Y,
            Move::Z => Move::Zs,
            Move::Zs => Move::Z,
        }
    }

    /// The turn at position `i` of the listing.
    pub fn from_index(i: usize) -> (m: Move)
        requires
            i < 18,
        ensures
            m == move_at(i as int),
            m.position() == i,
    {
        ALL_MOVES[i]
    }

    /// The turn that undoes this one.
    pub fn inverted(&self) -> (m: Move)
        ensures
            m == self.inverse(),
    {
        match self {
            Move::Front => Move::FrontS,
            Move::FrontS => Move::Front,
            Move::Back => Move::BackS,
            Move::BackS => Move::Back,
            Move::Left => Move::LeftS,
            Move::LeftS => Move::Left,
            Move::Right => Move::RightS,
            Move::RightS => Move::Right,
            Move::Top => Move::TopS,
            Move::TopS => Move::Top,
            Move::Bottom => Move::BottomS,
            Move::BottomS => Move::Bottom,
            Move::X => Move::Xs,
            Move::Xs => Move::X,
            Move::Y => Move::Ys,
            Move::Ys => Move::Y,
            Move::Z => Move::Zs,
            Move::Zs => Move::Z,
        }
    }
}

/// Positions and turns correspond one to one, and undoing is an involution.
pub proof fn lemma_move_positions(m: Move)
    ensures
        0 <= m.position() < 18,
        move_at(m.position()) == m,
        m.inverse().inverse() == m,
{
}

} // verus!
