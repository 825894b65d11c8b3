//! The cube: 54 facelets, the turns that permute them, and its printed form.
//!
//! Facelets are numbered row by row over the unfolded cube:
//!
//! ```text
//!            0  1  2
//!            3  4  5
//!            6  7  8
//!  9 10 11  12 13 14  15 16 17  18 19 20
//! 21 22 23  24 25 26  27 28 29  30 31 32
//! 33 34 35  36 37 38  39 40 41  42 43 44
//!           45 46 47
//!           48 49 50
//!           51 52 53
//! ```

use crate::color::Color::{B, G, O, R, W, Y};
use crate::color::{lemma_color_code_injective, Color};
use crate::moves::{move_at, Move};
use crate::order::{
    agree_before, lemma_lex_connected, lemma_lex_decided, lemma_lex_irreflexive,
    lemma_lex_transitive, lex_lt, Comparison, TotalOrder,
};
use crate::rotate::{cycle4_source, lemma_rotated4_is_cycle, rotated4, ExtArrayRotate4};
use vstd::prelude::*;

verus! {


/// A cube, as the colours of its facelets.
#[derive(Debug, Clone, Copy, PartialEq, Eq, PartialOrd, Ord)]
pub struct RubiksCube {
    pub pieces: [Color; 54],
}

impl View for RubiksCube {
    type V = Seq<Color>;

    open spec fn view(&self) -> Seq<Color> {
        self.pieces@
    }
}

/// Four facelet numbers whose contents rotate `0 -> 1 -> 2 -> 3 -> 0`.
pub type Cycle = (int, int, int, int);

/// Five rotations of four facelets each, made in turn.
#[verifier::opaque]
pub open spec fn five_rotations(s: Seq<Color>, c: (Cycle, Cycle, Cycle, Cycle, Cycle)) -> Seq<
    Color,
> {
    let s0 = rotated4(s, c.0.0, c.0.1, c.0.2, c.0.3);
    let s1 = rotated4(s0, c.1.0, c.1.1, c.1.2, c.1.3);
    let s2 = rotated4(s1, c.2.0, c.2.1, c.2.2, c.2.3);
    let s3 = rotated4(s2, c.3.0, c.3.1, c.3.2, c.3.3);
    rotated4(s3, c.4.0, c.4.1, c.4.2, c.4.3)
}

/// The five four-cycles of a turn of a single face: two for the face's own
/// ring of eight facelets, three for the twelve facelets bordering it.
/// `None` for the turns of the whole cube.
pub open spec fn face_cycles(m: Move) -> Option<(Cycle, Cycle, Cycle, Cycle, Cycle)> {
    match m {
        Move::Front => Some(
            ((12, 14, 38, 36), (13, 26, 37, 24), (6, 15, 47, 35), (7, 27, 46, 23), (8, 39, 45, 11)),
        ),
        Move::FrontS => Some(
            ((12, 36, 38, 14), (13, 24, 37, 26), (6, 35, 47, 15), (7, 23, 46, 27), (8, 11, 45, 39)),
        ),
        Move::Back => Some(
            ((18, 20, 44, 42), (19, 32, 43, 30), (0, 33, 53, 17), (1, 21, 52, 29), (2, 9, 51, 41)),
        ),
        Move::BackS => Some(
            ((18, 42, 44, 20), (19, 30, 43, 32), (0, 17, 53, 33), (1, 29, 52, 21), (2, 41, 51, 9)),
        ),
        Move::Left => Some(
            ((9, 11, 35, 33), (10, 23, 34, 21), (0, 12, 45, 44), (3, 24, 48, 32), (6, 36, 51, 20)),
        ),
        Move::LeftS => Some(
            ((9, 33, 35, 11), (10, 21, 34, 23), (0, 44, 45, 12), (3, 32, 48, 24), (6, 20, 51, 36)),
        ),
        Move::Right => Some(
            ((15, 17, 41, 39), (16, 29, 40, 27), (8, 18, 53, 38), (5, 30, 50, 26), (2, 42, 47, 14)),
        ),
        Move::RightS => Some(
            ((15, 39, 41, 17), (16, 27, 40, 29), (8, 38, 53, 18), (5, 26, 50, 30), (2, 14, 47, 42)),
        ),
        Move::Top => Some(
            ((0, 2, 8, 6), (1, 5, 7, 3), (12, 9, 18, 15), (13, 10, 19, 16), (14, 11, 20, 17)),
        ),
        Move::TopS => Some(
            ((0, 6, 8, 2), (1, 3, 7, 5), (12, 15, 18, 9), (13, 16, 19, 10), (14, 17, 20, 11)),
        ),
        Move::Bottom => Some(
            (
                (45, 47, 53, 51),
                (46, 50, 52, 48),
                (36, 39, 42, 33),
                (37, 40, 43, 34),
                (38, 41, 44, 35),
            ),
        ),
        Move::BottomS => Some(
            (
                (45, 51, 53, 47),
                (46, 48, 52, 50),
                (36, 33, 42, 39),
                (37, 34, 43, 40),
                (38, 35, 44, 41),
            ),
        ),
        _ => None,
    }
}

/// The facelets after a turn of a single face. The turns of the whole cube
/// leave `s` as it is here; `turned` gives them.
pub open spec fn face_turned(s: Seq<Color>, m: Move) -> Seq<Color> {
    match face_cycles(m) {
        Some(c) => five_rotations(s, c),
        None => s,
    }
}

/// Three rotations of four facelets each, made in turn.
#[verifier::opaque]
pub open spec fn three_rotations(s: Seq<Color>, c: (Cycle, Cycle, Cycle)) -> Seq<Color> {
    let s0 = rotated4(s, c.0.0, c.0.1, c.0.2, c.0.3);
    let s1 = rotated4(s0, c.1.0, c.1.1, c.1.2, c.1.3);
    rotated4(s1, c.2.0, c.2.1, c.2.2, c.2.3)
}

/// The three four-cycles of the slice that lies between two opposite
/// faces, as it goes round when the whole cube turns about their axis.
/// `None` for the turns of a single face.
pub open spec fn slice_cycles(m: Move) -> Option<(Cycle, Cycle, Cycle)> {
    match m {
        Move::X => Some(((7, 19, 52, 37), (4, 31, 49, 25), (1, 43, 46, 13))),
        Move::Xs => Some(((7, 37, 52, 19), (4, 25, 49, 31), (1, 13, 46, 43))),
        Move::Y => Some(((24, 27, 30, 21), (25, 28, 31, 22), (26, 29, 32, 23))),
        Move::Ys => Some(((24, 21, 30, 27), (25, 22, 31, 28), (26, 23, 32, 29))),
        Move::Z => Some(((3, 34, 50, 16), (4, 22, 49, 28), (5, 10, 48, 40))),
        Move::Zs => Some(((3, 16, 50, 34), (4, 28, 49, 22), (5, 40, 48, 10))),
        _ => None,
    }
}

/// The facelets after the slice of a whole-cube turn has gone round. The
/// turns of a single face leave `s` as it is here.
pub open spec fn slice_turned(s: Seq<Color>, m: Move) -> Seq<Color> {
    match slice_cycles(m) {
        Some(c) => three_rotations(s, c),
        None => s,
    }
}

/// The two face turns that a whole-cube turn is made of, beside its slice:
/// the one made first and the one made last. Both go the way the cube
/// goes, so one of them is a counter turn. `None` for the turns of a
/// single face.
pub open spec fn rotation_faces(m: Move) -> Option<(Move, Move)> {
    match m {
        Move::X => Some((Move::LeftS, Move::Right)),
        Move::Xs => Some((Move::RightS, Move::Left)),
        Move::Y => Some((Move::TopS, Move::Bottom)),
        Move::Ys => Some((Move::BottomS, Move::Top)),
        Move::Z => Some((Move::FrontS, Move::Back)),
        Move::Zs => Some((Move::BackS, Move::Front)),
        _ => None,
    }
}

/// The facelets after any of the eighteen turns. A turn of the whole cube
/// about an axis takes the two faces on the axis and the slice between
/// them round together, a quarter turn.
pub open spec fn turned(s: Seq<Color>, m: Move) -> Seq<Color> {
    match rotation_faces(m) {
        Some((first, last)) => face_turned(slice_turned(face_turned(s, first), m), last),
        None => face_turned(s, m),
    }
}

/// The facelets after a sequence of turns, made first to last.
pub open spec fn turned_all(s: Seq<Color>, moves: Seq<Move>) -> Seq<Color>
    decreases moves.len(),
{
    if moves.len() == 0 {
        s
    } else {
        turned(turned_all(s, moves.drop_last()), moves.last())
    }
}

/// The facelets of the solved cube.
pub open spec fn solved() -> Seq<Color> {
    RubiksCube::NEW@
}

impl RubiksCube {
    /// The facelets of the solved cube, laid out as the cube unfolds.
    pub const NEW: [Color; 54] = [
                 Y, Y, Y,
                 Y, Y, Y,
                 Y, Y, Y,
        B, B, B, R, R, R, G, G, G, O, O, O,
        B, B, B, R, R, R, G, G, G, O, O, O,
        B, B, B, R, R, R, G, G, G, O, O, O,
                 W, W, W,
                 W, W, W,
                 W, W, W,
    ];

    /// The solved cube.
    pub fn new() -> (rc: Self)
        ensures
            rc@ == solved(),
    {
        Self { pieces: Self::NEW }
    }

    /// The cube with the given facelets.
    pub fn from(pieces: [Color; 54]) -> (rc: Self)
        ensures
            rc.pieces == pieces,
            rc@ == pieces@,
    {
        Self { pieces }
    }

    /// Makes the given turns, first to last.
    pub fn make_moves(&mut self, moves: Vec<Move>)
        ensures
            final(self)@ == turned_all(old(self)@, moves@),
    {
        let mut i: usize = 0;
        while i < moves.len()
            invariant
                i <= moves.len(),
                self@ == turned_all(old(self)@, moves@.take(i as int)),
            decreases moves.len() - i,
        {
            proof {
                assert(moves@.take(i + 1).drop_last() =~= moves@.take(i as int));
            }
            self.make_move(moves[i]);
            i += 1;
        }
        proof {
            assert(moves@.take(i as int) =~= moves@);
        }
    }

    /// Makes one turn.
    pub fn make_move(&mut self, move_: Move)
        ensures
            final(self)@ == turned(old(self)@, move_),
    {
        match move_ {
            Move::Front => self.front(),
            Move::FrontS => self.front_s(),
            Move::Back => self.back(),
            Move::BackS => self.back_s(),
            Move::Left => self.left(),
            Move::LeftS => self.left_s(),
            Move::Right => self.right(),
            Move::RightS => self.right_s(),
            Move::Top => self.top(),
            Move::TopS => self.top_s(),
            Move::Bottom => self.bottom(),
            Move::BottomS => self.bottom_s(),
            Move::X => self.x(),
            Move::Xs => self.x_s(),
            Move::Y => self.y(),
            Move::Ys => self.y_s(),
            Move::Z => self.z(),
            Move::Zs => self.z_s(),
        }
    }

    /// The cube one turn away; `self` stays as it is.
    pub fn moved(&self, move_: Move) -> (rc: RubiksCube)
        ensures
            rc@ == turned(self@, move_),
    {
        let mut rc = *self;
        rc.make_move(move_);
        rc
    }

    /// The eighteen cubes one turn away, in the order of the listing of turns.
    pub fn juxt(&self) -> (children: [RubiksCube; 18])
        ensures
            forall|i: int| 0 <= i < 18 ==> (#[trigger] children[i])@ == turned(self@, move_at(i)),
    {
        let c0 = self.moved(Move::Front);
        let c1 = self.moved(Move::FrontS);
        let c2 = self.moved(Move::Back);
        let c3 = self.moved(Move::BackS);
        let c4 = self.moved(Move::Left);
        let c5 = self.moved(Move::LeftS);
        let c6 = self.moved(Move::Right);
        let c7 = self.moved(Move::RightS);
        let c8 = self.moved(Move::Top);
        let c9 = self.moved(Move::TopS);
        let c10 = self.moved(Move::Bottom);
        let c11 = self.moved(Move::BottomS);
        let c12 = self.moved(Move::X);
        let c13 = self.moved(Move::Xs);
        let c14 = self.moved(Move::Y);
        let c15 = self.moved(Move::Ys);
        let c16 = self.moved(Move::Z);
        let c17 = self.moved(Move::Zs);
        let children = [
            c0, c1, c2, c3, c4, c5, c6, c7, c8, c9, c10, c11, c12, c13, c14, c15, c16, c17,
        ];
        proof {
            assert(children[0] == c0);
            assert(children[1] == c1);
            assert(children[2] == c2);
            assert(children[3] == c3);
            assert(children[4] == c4);
            assert(children[5] == c5);
            assert(children[6] == c6);
            assert(children[7] == c7);
            assert(children[8] == c8);
            assert(children[9] == c9);
            assert(children[10] == c10);
            assert(children[11] == c11);
            assert(children[12] == c12);
            assert(children[13] == c13);
            assert(children[14] == c14);
            assert(children[15] == c15);
            assert(children[16] == c16);
            assert(children[17] == c17);
        }
        children
    }

    /// Turns the front face a quarter turn.
    pub fn front(&mut self)
        ensures
            final(self)@ == turned(old(self)@, Move::Front),
    {
        proof {
            reveal(five_rotations);
        }
        self.pieces.rotate4(12, 14, 38, 36);
        self.pieces.rotate4(13, 26, 37, 24);
        self.pieces.rotate4(6, 15, 47, 35);
        self.pieces.rotate4(7, 27, 46, 23);
        self.pieces.rotate4(8, 39, 45, 11);
    }

    /// Turns the front face back a quarter turn.
    pub fn front_s(&mut self)
        ensures
            final(self)@ == turned(old(self)@, Move::FrontS),
    {
        proof {
            reveal(five_rotations);
        }
        self.pieces.rotate4(12, 36, 38, 14);
        self.pieces.rotate4(13, 24, 37, 26);
        self.pieces.rotate4(6, 35, 47, 15);
        self.pieces.rotate4(7, 23, 46, 27);
        self.pieces.rotate4(8, 11, 45, 39);
    }

    /// Turns the back face a quarter turn.
    pub fn back(&mut self)
        ensures
            final(self)@ == turned(old(self)@, Move::Back),
    {
        proof {
            reveal(five_rotations);
        }
        self.pieces.rotate4(18, 20, 44, 42);
        self.pieces.rotate4(19, 32, 43, 30);
        self.pieces.rotate4(0, 33, 53, 17);
        self.pieces.rotate4(1, 21, 52, 29);
        self.pieces.rotate4(2, 9, 51, 41);
    }

    /// Turns the back face back a quarter turn.
    pub fn back_s(&mut self)
        ensures
            final(self)@ == turned(old(self)@, Move::BackS),
    {
        proof {
            reveal(five_rotations);
        }
        self.pieces.rotate4(18, 42, 44, 20);
        self.pieces.rotate4(19, 30, 43, 32);
        self.pieces.rotate4(0, 17, 53, 33);
        self.pieces.rotate4(1, 29, 52, 21);
        self.pieces.rotate4(2, 41, 51, 9);
    }

    /// Turns the left face a quarter turn.
    pub fn left(&mut self)
        ensures
            final(self)@ == turned(old(self)@, Move::Left),
    {
        proof {
            reveal(five_rotations);
        }
        self.pieces.rotate4(9, 11, 35, 33);
        self.pieces.rotate4(10, 23, 34, 21);
        self.pieces.rotate4(0, 12, 45, 44);
        self.pieces.rotate4(3, 24, 48, 32);
        self.pieces.rotate4(6, 36, 51, 20);
    }

    /// Turns the left face back a quarter turn.
    pub fn left_s(&mut self)
        ensures
            final(self)@ == turned(old(self)@, Move::LeftS),
    {
        proof {
            reveal(five_rotations);
        }
        self.pieces.rotate4(9, 33, 35, 11);
        self.pieces.rotate4(10, 21, 34, 23);
        self.pieces.rotate4(0, 44, 45, 12);
        self.pieces.rotate4(3, 32, 48, 24);
        self.pieces.rotate4(6, 20, 51, 36);
    }

    /// Turns the right face a quarter turn.
    pub fn right(&mut self)
        ensures
            final(self)@ == turned(old(self)@, Move::Right),
    {
        proof {
            reveal(five_rotations);
        }
        self.pieces.rotate4(15, 17, 41, 39);
        self.pieces.rotate4(16, 29, 40, 27);
        self.pieces.rotate4(8, 18, 53, 38);
        self.pieces.rotate4(5, 30, 50, 26);
        self.pieces.rotate4(2, 42, 47, 14);
    }

    /// Turns the right face back a quarter turn.
    pub fn right_s(&mut self)
        ensures
            final(self)@ == turned(old(self)@, Move::RightS),
    {
        proof {
            reveal(five_rotations);
        }
        self.pieces.rotate4(15, 39, 41, 17);
        self.pieces.rotate4(16, 27, 40, 29);
        self.pieces.rotate4(8, 38, 53, 18);
        self.pieces.rotate4(5, 26, 50, 30);
        self.pieces.rotate4(2, 14, 47, 42);
    }

    /// Turns the top face a quarter turn.
    pub fn top(&mut self)
        ensures
            final(self)@ == turned(old(self)@, Move::Top),
    {
        proof {
            reveal(five_rotations);
        }
        self.pieces.rotate4(0, 2, 8, 6);
        self.pieces.rotate4(1, 5, 7, 3);
        self.pieces.rotate4(12, 9, 18, 15);
        self.pieces.rotate4(13, 10, 19, 16);
        self.pieces.rotate4(14, 11, 20, 17);
    }

    /// Turns the top face back a quarter turn.
    pub fn top_s(&mut self)
        ensures
            final(self)@ == turned(old(self)@, Move::TopS),
    {
        proof {
            reveal(five_rotations);
        }
        self.pieces.rotate4(0, 6, 8, 2);
        self.pieces.rotate4(1, 3, 7, 5);
        self.pieces.rotate4(12, 15, 18, 9);
        self.pieces.rotate4(13, 16, 19, 10);
        self.pieces.rotate4(14, 17, 20, 11);
    }

    /// Turns the bottom face a quarter turn.
    pub fn bottom(&mut self)
        ensures
            final(self)@ == turned(old(self)@, Move::Bottom),
    {
        proof {
            reveal(five_rotations);
        }
        self.pieces.rotate4(45, 47, 53, 51);
        self.pieces.rotate4(46, 50, 52, 48);
        self.pieces.rotate4(36, 39, 42, 33);
        self.pieces.rotate4(37, 40, 43, 34);
        self.pieces.rotate4(38, 41, 44, 35);
    }

    /// Turns the bottom face back a quarter turn.
    pub fn bottom_s(&mut self)
        ensures
            final(self)@ == turned(old(self)@, Move::BottomS),
    {
        proof {
            reveal(five_rotations);
        }
        self.pieces.rotate4(45, 51, 53, 47);
        self.pieces.rotate4(46, 48, 52, 50);
        self.pieces.rotate4(36, 33, 42, 39);
        self.pieces.rotate4(37, 34, 43, 40);
        self.pieces.rotate4(38, 35, 44, 41);
    }

    /// Turns the whole cube a quarter turn about the axis through its left and
    /// right faces, the way `right` goes.
    pub fn x(&mut self)
        ensures
            final(self)@ == turned(old(self)@, Move::X),
    {
        proof {
            reveal(three_rotations);
        }
        self.left_s();
        self.pieces.rotate4(7, 19, 52, 37);
        self.pieces.rotate4(4, 31, 49, 25);
        self.pieces.rotate4(1, 43, 46, 13);
        self.right();
    }

    /// Turns the whole cube back a quarter turn about the axis through its left
    /// and right faces: undoes `x`.
    pub fn x_s(&mut self)
        ensures
            final(self)@ == turned(old(self)@, Move::Xs),
    {
        proof {
            reveal(three_rotations);
        }
        self.right_s();
        self.pieces.rotate4(7, 37, 52, 19);
        self.pieces.rotate4(4, 25, 49, 31);
        self.pieces.rotate4(1, 13, 46, 43);
        self.left();
    }

    /// Turns the whole cube a quarter turn about the axis through its top and
    /// bottom faces, the way `bottom` goes.
    pub fn y(&mut self)
        ensures
            final(self)@ == turned(old(self)@, Move::Y),
    {
        proof {
            reveal(three_rotations);
        }
        self.top_s();
        self.pieces.rotate4(24, 27, 30, 21);
        self.pieces.rotate4(25, 28, 31, 22);
        self.pieces.rotate4(26, 29, 32, 23);
        self.bottom();
    }

    /// Turns the whole cube back a quarter turn about the axis through its top
    /// and bottom faces: undoes `y`.
    pub fn y_s(&mut self)
        ensures
            final(self)@ == turned(old(self)@, Move::Ys),
    {
        proof {
            reveal(three_rotations);
        }
        self.bottom_s();
        self.pieces.rotate4(24, 21, 30, 27);
        self.pieces.rotate4(25, 22, 31, 28);
        self.pieces.rotate4(26, 23, 32, 29);
        self.top();
    }

    /// Turns the whole cube a quarter turn about the axis through its front and
    /// back faces, the way `back` goes.
    pub fn z(&mut self)
        ensures
            final(self)@ == turned(old(self)@, Move::Z),
    {
        proof {
            reveal(three_rotations);
        }
        self.front_s();
        self.pieces.rotate4(3, 34, 50, 16);
        self.pieces.rotate4(4, 22, 49, 28);
        self.pieces.rotate4(5, 10, 48, 40);
        self.back();
    }

    /// Turns the whole cube back a quarter turn about the axis through its front
    /// and back faces: undoes `z`.
    pub fn z_s(&mut self)
        ensures
            final(self)@ == turned(old(self)@, Move::Zs),
    {
        proof {
            reveal(three_rotations);
        }
        self.back_s();
        self.pieces.rotate4(3, 16, 50, 34);
        self.pieces.rotate4(4, 28, 49, 22);
        self.pieces.rotate4(5, 40, 48, 10);
        self.front();
    }
}

/// The four facelet numbers are distinct and below `n`.
pub open spec fn is_cycle(c: Cycle, n: int) -> bool {
    &&& 0 <= c.0 < n
    &&& 0 <= c.1 < n
    &&& 0 <= c.2 < n
    &&& 0 <= c.3 < n
    &&& c.0 != c.1
    &&& c.0 != c.2
    &&& c.0 != c.3
    &&& c.1 != c.2
    &&& c.1 != c.3
    &&& c.2 != c.3
}

/// Where the content of facelet `i` comes from when five cycles rotate in turn.
pub open spec fn five_sources(i: int, c: (Cycle, Cycle, Cycle, Cycle, Cycle)) -> int {
    let i4 = cycle4_source(i, c.4.0, c.4.1, c.4.2, c.4.3);
    let i3 = cycle4_source(i4, c.3.0, c.3.1, c.3.2, c.3.3);
    let i2 = cycle4_source(i3, c.2.0, c.2.1, c.2.2, c.2.3);
    let i1 = cycle4_source(i2, c.1.0, c.1.1, c.1.2, c.1.3);
    cycle4_source(i1, c.0.0, c.0.1, c.0.2, c.0.3)
}

/// Where the content of facelet `i` comes from in a turn of a single face.
pub open spec fn face_source(m: Move, i: int) -> int {
    match face_cycles(m) {
        Some(c) => five_sources(i, c),
        None => i,
    }
}

/// Five rotations permute the facelets: each facelet takes the content of its source.
pub proof fn lemma_five_rotations_permute(s: Seq<Color>, c: (Cycle, Cycle, Cycle, Cycle, Cycle))
    requires
        is_cycle(c.0, s.len() as int),
        is_cycle(c.1, s.len() as int),
        is_cycle(c.2, s.len() as int),
        is_cycle(c.3, s.len() as int),
        is_cycle(c.4, s.len() as int),
    ensures
        five_rotations(s, c).len() == s.len(),
        forall|i: int|
            0 <= i < s.len() ==> 0 <= five_sources(i, c) < s.len() && #[trigger] five_rotations(
                s,
                c,
            )[i] == s[five_sources(i, c)],
{
    reveal(five_rotations);
    let s0 = rotated4(s, c.0.0, c.0.1, c.0.2, c.0.3);
    let s1 = rotated4(s0, c.1.0, c.1.1, c.1.2, c.1.3);
    let s2 = rotated4(s1, c.2.0, c.2.1, c.2.2, c.2.3);
    let s3 = rotated4(s2, c.3.0, c.3.1, c.3.2, c.3.3);
    let s4 = rotated4(s3, c.4.0, c.4.1, c.4.2, c.4.3);
    lemma_rotated4_is_cycle(s, c.0.0, c.0.1, c.0.2, c.0.3);
    lemma_rotated4_is_cycle(s0, c.1.0, c.1.1, c.1.2, c.1.3);
    lemma_rotated4_is_cycle(s1, c.2.0, c.2.1, c.2.2, c.2.3);
    lemma_rotated4_is_cycle(s2, c.3.0, c.3.1, c.3.2, c.3.3);
    lemma_rotated4_is_cycle(s3, c.4.0, c.4.1, c.4.2, c.4.3);
    assert forall|i: int| 0 <= i < s.len() implies 0 <= five_sources(i, c) < s.len()
        && #[trigger] s4[i] == s[five_sources(i, c)] by {
        let i4 = cycle4_source(i, c.4.0, c.4.1, c.4.2, c.4.3);
        let i3 = cycle4_source(i4, c.3.0, c.3.1, c.3.2, c.3.3);
        let i2 = cycle4_source(i3, c.2.0, c.2.1, c.2.2, c.2.3);
        let i1 = cycle4_source(i2, c.1.0, c.1.1, c.1.2, c.1.3);
        assert(s4[i] == s3[i4]);
        assert(s3[i4] == s2[i3]);
        assert(s2[i3] == s1[i2]);
        assert(s1[i2] == s0[i1]);
    }
}

/// A turn of a single face permutes the 54 facelets.
pub proof fn lemma_face_turned_permutes(s: Seq<Color>, m: Move)
    requires
        s.len() == 54,
    ensures
        face_turned(s, m).len() == 54,
        forall|i: int|
            0 <= i < 54 ==> 0 <= face_source(m, i) < 54 && #[trigger] face_turned(s, m)[i]
                == s[face_source(m, i)],
{
    match face_cycles(m) {
        Some(c) => {
            lemma_five_rotations_permute(s, c);
        },
        None => {},
    }
}

/// In a face turn and its counter turn, each facelet's source's source is itself.
pub proof fn lemma_face_sources_undo(m: Move, i: int)
    requires
        0 <= i < 54,
    ensures
        face_source(m, face_source(m.inverse(), i)) == i,
{
}

/// A face turn followed by the counter turn of the same face leaves every
/// facelet where it was.
pub proof fn lemma_face_turn_undone(s: Seq<Color>, m: Move)
    requires
        s.len() == 54,
    ensures
        face_turned(face_turned(s, m), m.inverse()) == s,
{
    let t = face_turned(s, m);
    let u = face_turned(t, m.inverse());
    lemma_face_turned_permutes(s, m);
    lemma_face_turned_permutes(t, m.inverse());
    assert forall|i: int| 0 <= i < 54 implies u[i] == s[i] by {
        lemma_face_sources_undo(m, i);
        assert(u[i] == t[face_source(m.inverse(), i)]);
    }
    assert(u =~= s);
}

/// Where the content of facelet `i` comes from when three cycles rotate in turn.
pub open spec fn three_sources(i: int, c: (Cycle, Cycle, Cycle)) -> int {
    let i2 = cycle4_source(i, c.2.0, c.2.1, c.2.2, c.2.3);
    let i1 = cycle4_source(i2, c.1.0, c.1.1, c.1.2, c.1.3);
    cycle4_source(i1, c.0.0, c.0.1, c.0.2, c.0.3)
}

/// Where the content of facelet `i` comes from as the slice of a
/// whole-cube turn goes round.
pub open spec fn slice_source(m: Move, i: int) -> int {
    match slice_cycles(m) {
        Some(c) => three_sources(i, c),
        None => i,
    }
}

/// Three rotations permute the facelets: each facelet takes the content of its source.
pub proof fn lemma_three_rotations_permute(s: Seq<Color>, c: (Cycle, Cycle, Cycle))
    requires
        is_cycle(c.0, s.len() as int),
        is_cycle(c.1, s.len() as int),
        is_cycle(c.2, s.len() as int),
    ensures
        three_rotations(s, c).len() == s.len(),
        forall|i: int|
            0 <= i < s.len() ==> 0 <= three_sources(i, c) < s.len() && #[trigger] three_rotations(
                s,
                c,
            )[i] == s[three_sources(i, c)],
{
    reveal(three_rotations);
    let s0 = rotated4(s, c.0.0, c.0.1, c.0.2, c.0.3);
    let s1 = rotated4(s0, c.1.0, c.1.1, c.1.2, c.1.3);
    let s2 = rotated4(s1, c.2.0, c.2.1, c.2.2, c.2.3);
    lemma_rotated4_is_cycle(s, c.0.0, c.0.1, c.0.2, c.0.3);
    lemma_rotated4_is_cycle(s0, c.1.0, c.1.1, c.1.2, c.1.3);
    lemma_rotated4_is_cycle(s1, c.2.0, c.2.1, c.2.2, c.2.3);
    assert forall|i: int| 0 <= i < s.len() implies 0 <= three_sources(i, c) < s.len()
        && #[trigger] s2[i] == s[three_sources(i, c)] by {
        let i2 = cycle4_source(i, c.2.0, c.2.1, c.2.2, c.2.3);
        let i1 = cycle4_source(i2, c.1.0, c.1.1, c.1.2, c.1.3);
        assert(s2[i] == s1[i2]);
        assert(s1[i2] == s0[i1]);
    }
}

/// The slice of a whole-cube turn permutes the 54 facelets.
pub proof fn lemma_slice_turned_permutes(s: Seq<Color>, m: Move)
    requires
        s.len() == 54,
    ensures
        slice_turned(s, m).len() == 54,
        forall|i: int|
            0 <= i < 54 ==> 0 <= slice_source(m, i) < 54 && #[trigger] slice_turned(s, m)[i]
                == s[slice_source(m, i)],
{
    match slice_cycles(m) {
        Some(c) => {
            lemma_three_rotations_permute(s, c);
        },
        None => {},
    }
}

/// In the slices of a whole-cube turn and of the turn back, each facelet's
/// source's source is itself.
pub proof fn lemma_slice_sources_undo(m: Move, i: int)
    requires
        0 <= i < 54,
    ensures
        slice_source(m, slice_source(m.inverse(), i)) == i,
{
}

/// The slice of a whole-cube turn, gone round and round back, leaves every
/// facelet where it was.
pub proof fn lemma_slice_turn_undone(s: Seq<Color>, m: Move)
    requires
        s.len() == 54,
    ensures
        slice_turned(slice_turned(s, m), m.inverse()) == s,
{
    let t = slice_turned(s, m);
    let u = slice_turned(t, m.inverse());
    lemma_slice_turned_permutes(s, m);
    lemma_slice_turned_permutes(t, m.inverse());
    assert forall|i: int| 0 <= i < 54 implies u[i] == s[i] by {
        lemma_slice_sources_undo(m, i);
        assert(u[i] == t[slice_source(m.inverse(), i)]);
    }
    assert(u =~= s);
}

/// A turn moves facelets about and keeps their number.
pub proof fn lemma_turned_len(s: Seq<Color>, m: Move)
    requires
        s.len() == 54,
    ensures
        turned(s, m).len() == 54,
{
    match rotation_faces(m) {
        Some((first, last)) => {
            lemma_face_turned_permutes(s, first);
            lemma_slice_turned_permutes(face_turned(s, first), m);
            lemma_face_turned_permutes(slice_turned(face_turned(s, first), m), last);
        },
        None => {
            lemma_face_turned_permutes(s, m);
        },
    }
}

/// Any turn followed by the turn that undoes it leaves every facelet where
/// it was.
pub proof fn lemma_turn_undone(s: Seq<Color>, m: Move)
    requires
        s.len() == 54,
    ensures
        turned(turned(s, m), m.inverse()) == s,
{
    match rotation_faces(m) {
        Some((first, last)) => {
            // The turn back undoes the last face first, then the slice,
            // then the first face.
            let s1 = face_turned(s, first);
            let s2 = slice_turned(s1, m);
            lemma_face_turned_permutes(s, first);
            lemma_slice_turned_permutes(s1, m);
            assert(rotation_faces(m.inverse()) == Some((last.inverse(), first.inverse())));
            lemma_face_turn_undone(s2, last);
            lemma_slice_turn_undone(s1, m);
            lemma_face_turn_undone(s, first);
        },
        None => {
            lemma_face_turn_undone(s, m);
        },
    }
}

/// The face that a facelet lies on: 0 for the top, 1 to 4 for the left,
/// front, right and back, 5 for the bottom.
pub open spec fn face_of(i: int) -> int {
    if i < 9 {
        0
    } else if i >= 45 {
        5
    } else {
        // the place in a row of twelve: three facelets of each side face
        let place = if i < 21 {
            i - 9
        } else if i < 33 {
            i - 21
        } else {
            i - 33
        };
        if place < 3 {
            1
        } else if place < 6 {
            2
        } else if place < 9 {
            3
        } else {
            4
        }
    }
}

/// Each face shows one colour.
pub open spec fn one_colour_faces(s: Seq<Color>) -> bool {
    forall|i: int, j: int|
        0 <= i < 54 && 0 <= j < 54 && face_of(i) == face_of(j) ==> #[trigger] s[i]
            == #[trigger] s[j]
}

/// Where the content of facelet `i` comes from in any turn.
pub open spec fn turn_source(m: Move, i: int) -> int {
    match rotation_faces(m) {
        Some((first, last)) => face_source(first, slice_source(m, face_source(last, i))),
        None => face_source(m, i),
    }
}

/// Any turn permutes the 54 facelets.
pub proof fn lemma_turned_permutes(s: Seq<Color>, m: Move)
    requires
        s.len() == 54,
    ensures
        turned(s, m).len() == 54,
        forall|i: int|
            0 <= i < 54 ==> 0 <= turn_source(m, i) < 54 && #[trigger] turned(s, m)[i]
                == s[turn_source(m, i)],
{
    match rotation_faces(m) {
        Some((first, last)) => {
            let s1 = face_turned(s, first);
            let s2 = slice_turned(s1, m);
            lemma_face_turned_permutes(s, first);
            lemma_slice_turned_permutes(s1, m);
            lemma_face_turned_permutes(s2, last);
            assert forall|i: int| 0 <= i < 54 implies 0 <= turn_source(m, i) < 54
                && #[trigger] turned(s, m)[i] == s[turn_source(m, i)] by {
                let a = face_source(last, i);
                let b = slice_source(m, a);
                assert(face_turned(s2, last)[i] == s2[a]);
                assert(s2[a] == s1[b]);
                assert(s1[b] == s[face_source(first, b)]);
            }
        },
        None => {
            lemma_face_turned_permutes(s, m);
        },
    }
}

/// The four faces round the axis of a whole-cube turn, in the order in
/// which each comes to lie where the next lay. `None` for the turns of a
/// single face.
pub open spec fn face_cycle(m: Move) -> Option<Cycle> {
    match m {
        // front, top, back, bottom
        Move::X => Some((2, 0, 4, 5)),
        Move::Xs => Some((2, 5, 4, 0)),
        // left, front, right, back
        Move::Y => Some((1, 2, 3, 4)),
        Move::Ys => Some((1, 4, 3, 2)),
        // right, top, left, bottom
        Move::Z => Some((3, 0, 1, 5)),
        Move::Zs => Some((3, 5, 1, 0)),
        _ => None,
    }
}

/// The face that comes to lie where face `f` lay, in a whole-cube turn.
pub open spec fn face_before(m: Move, f: int) -> int {
    match face_cycle(m) {
        Some(c) => cycle4_source(f, c.0, c.1, c.2, c.3),
        None => f,
    }
}

/// In a whole-cube turn every facelet of a face takes its content from the
/// one face that lay before it.
pub proof fn lemma_rotation_source_face(m: Move, i: int)
    requires
        rotation_faces(m) is Some,
        0 <= i < 54,
    ensures
        face_of(turn_source(m, i)) == face_before(m, face_of(i)),
{
    lemma_rotation_layers_apart(m, i);
    lemma_rotation_layer_faces(m, i);
}

/// The two faces and the slice of a whole-cube turn share no facelet: a
/// facelet that one of them moves is moved by no other.
pub proof fn lemma_rotation_layers_apart(m: Move, i: int)
    requires
        rotation_faces(m) is Some,
        0 <= i < 54,
    ensures
        ({
            let first = rotation_faces(m).unwrap().0;
            let last = rotation_faces(m).unwrap().1;
            let by_last = face_source(last, i);
            let by_slice = slice_source(m, i);
            let by_first = face_source(first, i);
            turn_source(m, i) == if by_last != i {
                by_last
            } else if by_slice != i {
                by_slice
            } else {
                by_first
            }
        }),
{
    let first = rotation_faces(m).unwrap().0;
    let last = rotation_faces(m).unwrap().1;
    let by_last = face_source(last, i);
    if by_last != i {
        assert(slice_source(m, by_last) == by_last);
        assert(face_source(first, by_last) == by_last);
    } else {
        let by_slice = slice_source(m, i);
        if by_slice != i {
            assert(face_source(first, by_slice) == by_slice);
        }
    }
}

/// In a whole-cube turn, what the two faces and the slice bring to a
/// facelet comes from the face that lay before the facelet's own; a
/// facelet that none of them moves lies on a face that stays.
pub proof fn lemma_rotation_layer_faces(m: Move, i: int)
    requires
        rotation_faces(m) is Some,
        0 <= i < 54,
    ensures
        ({
            let first = rotation_faces(m).unwrap().0;
            let last = rotation_faces(m).unwrap().1;
            let by_last = face_source(last, i);
            let by_slice = slice_source(m, i);
            let by_first = face_source(first, i);
            &&& by_last != i ==> face_of(by_last) == face_before(m, face_of(i))
            &&& by_slice != i ==> face_of(by_slice) == face_before(m, face_of(i))
            &&& by_first != i ==> face_of(by_first) == face_before(m, face_of(i))
            &&& by_last == i && by_slice == i && by_first == i ==> face_before(m, face_of(i))
                == face_of(i)
        }),
{
    let first = rotation_faces(m).unwrap().0;
    let last = rotation_faces(m).unwrap().1;
    lemma_face_layer_face(m, last, i);
    lemma_face_layer_face(m, first, i);
    lemma_slice_layer_face(m, i);
    if face_before(m, face_of(i)) != face_of(i) {
        lemma_still_facelet_face(m, i);
    }
}

/// What a face of a whole-cube turn brings to a facelet comes from the
/// face that lay before the facelet's own.
proof fn lemma_face_layer_face(m: Move, face: Move, i: int)
    requires
        rotation_faces(m) is Some,
        face == rotation_faces(m).unwrap().0 || face == rotation_faces(m).unwrap().1,
        0 <= i < 54,
    ensures
        face_source(face, i) != i ==> face_of(face_source(face, i)) == face_before(m, face_of(i)),
{
}

/// What the slice of a whole-cube turn brings to a facelet comes from the
/// face that lay before the facelet's own.
proof fn lemma_slice_layer_face(m: Move, i: int)
    requires
        rotation_faces(m) is Some,
        0 <= i < 54,
    ensures
        slice_source(m, i) != i ==> face_of(slice_source(m, i)) == face_before(m, face_of(i)),
{
}

/// A facelet that a whole-cube turn leaves alone lies on a face that stays.
proof fn lemma_still_facelet_face(m: Move, i: int)
    requires
        rotation_faces(m) is Some,
        0 <= i < 54,
        face_before(m, face_of(i)) != face_of(i),
    ensures
        face_source(rotation_faces(m).unwrap().0, i) != i || slice_source(m, i) != i
            || face_source(rotation_faces(m).unwrap().1, i) != i,
{
}

/// After a turn of the whole cube each face still shows one colour, the
/// colour of the face that lay before it: the faces have changed places,
/// and nothing else has.
pub proof fn lemma_rotation_keeps_faces(s: Seq<Color>, m: Move)
    requires
        s.len() == 54,
        one_colour_faces(s),
        rotation_faces(m) is Some,
    ensures
        one_colour_faces(turned(s, m)),
        forall|i: int, j: int|
            0 <= i < 54 && 0 <= j < 54 && face_of(j) == face_before(m, face_of(i))
                ==> #[trigger] turned(s, m)[i] == #[trigger] s[j],
{
    let t = turned(s, m);
    lemma_turned_permutes(s, m);
    assert forall|i: int, j: int|
        0 <= i < 54 && 0 <= j < 54 && face_of(j) == face_before(
            m,
            face_of(i),
        ) implies #[trigger] t[i] == #[trigger] s[j] by {
        lemma_rotation_source_face(m, i);
        assert(t[i] == s[turn_source(m, i)]);
    }
    assert forall|i: int, j: int|
        0 <= i < 54 && 0 <= j < 54 && face_of(i) == face_of(j) implies #[trigger] t[i]
        == #[trigger] t[j] by {
        lemma_rotation_source_face(m, i);
        lemma_rotation_source_face(m, j);
        assert(t[i] == s[turn_source(m, i)]);
        assert(t[j] == s[turn_source(m, j)]);
    }
}

/// Each face of the solved cube shows one colour.
pub proof fn lemma_solved_faces()
    ensures
        solved().len() == 54,
        one_colour_faces(solved()),
{
}

/// The colour codes of the facelets, by which cubes are ordered.
pub open spec fn cube_key(c: Seq<Color>) -> Seq<u8> {
    Seq::new(c.len(), |i: int| c[i].code())
}

/// The order of cubes: at the first facelet where two cubes differ, the
/// cube that comes first has the colour with the smaller code.
pub open spec fn cube_lt(a: Seq<Color>, b: Seq<Color>) -> bool {
    lex_lt(cube_key(a), cube_key(b))
}

/// Facelets of one number with the same codes throughout are the same facelets.
pub proof fn lemma_cube_key_injective(a: Seq<Color>, b: Seq<Color>)
    requires
        cube_key(a) == cube_key(b),
    ensures
        a == b,
{
    assert(a.len() == cube_key(a).len());
    assert(b.len() == cube_key(b).len());
    assert forall|i: int| 0 <= i < a.len() implies a[i] == b[i] by {
        assert(cube_key(a)[i] == a[i].code());
        assert(cube_key(b)[i] == b[i].code());
        lemma_color_code_injective(a[i], b[i]);
    }
    assert(a =~= b);
}

impl RubiksCube {
    /// The colour codes of the facelets.
    pub open spec fn key(self) -> Seq<u8> {
        cube_key(self@)
    }
}

/// Cubes with the same facelets are the same cube.
pub proof fn lemma_cube_by_facelets(a: RubiksCube, b: RubiksCube)
    requires
        a@ == b@,
    ensures
        a == b,
{
    assert forall|i: int| 0 <= i < 54 implies a.pieces[i] == b.pieces[i] by {
        assert(a@[i] == b@[i]);
    }
    assert(a.pieces =~= b.pieces);
}

/// Cubes with the same key are the same cube.
pub proof fn lemma_cube_by_key(a: RubiksCube, b: RubiksCube)
    requires
        a.key() == b.key(),
    ensures
        a == b,
{
    lemma_cube_key_injective(a@, b@);
    lemma_cube_by_facelets(a, b);
}

/// Cubes are ordered by their keys, facelet 0 counting most.
impl TotalOrder for RubiksCube {
    open spec fn lt(self, other: Self) -> bool {
        cube_lt(self@, other@)
    }

    proof fn lemma_irreflexive(a: Self) {
        lemma_lex_irreflexive(a.key());
    }

    proof fn lemma_transitive(a: Self, b: Self, c: Self) {
        lemma_lex_transitive(a.key(), b.key(), c.key());
    }

    proof fn lemma_connected(a: Self, b: Self) {
        lemma_lex_connected(a.key(), b.key());
        if a.key() == b.key() {
            lemma_cube_by_key(a, b);
        }
    }

    fn compare(&self, other: &Self) -> (c: Comparison) {
        let mut i: usize = 0;
        while i < 54
            invariant
                i <= 54,
                agree_before(self.key(), other.key(), i as int),
            decreases 54 - i,
        {
            let a = self.pieces[i].to_u8();
            let b = other.pieces[i].to_u8();
            if a < b {
                proof {
                    lemma_lex_decided(self.key(), other.key(), i as int);
                }
                return Comparison::Less;
            }
            if a > b {
                proof {
                    assert(agree_before(other.key(), self.key(), i as int));
                    lemma_lex_decided(other.key(), self.key(), i as int);
                }
                return Comparison::Greater;
            }
            i += 1;
        }
        proof {
            assert(self.key() =~= other.key());
            lemma_cube_by_key(*self, *other);
            lemma_lex_irreflexive(self.key());
        }
        Comparison::Equal
    }
}

} // verus!
