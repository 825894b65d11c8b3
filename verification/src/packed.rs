//! Denser forms of a cube: two facelets to a byte, or three.
//!
//! A packed cube says no more than the cube it was made from. Each packing
//! is a bijection between the cubes and the well-formed packed values.

use crate::color::{lemma_color_code_round_trip, Color};
use crate::cube::{cube_key, cube_lt, lemma_cube_by_facelets, RubiksCube};
use crate::order::{
    agree_before, lemma_lex_connected, lemma_lex_decided, lemma_lex_irreflexive,
    lemma_lex_transitive, lex_lt, Comparison, TotalOrder,
};
use vstd::prelude::*;

verus! {

/// Two colours in one byte: the first in the high four bits, the second in
/// the low four.
#[derive(Debug, Clone, Copy, PartialEq, Eq, PartialOrd, Ord)]
pub struct ColorPair {
    pub value: u8,
}

/// The byte that packs two colour codes.
pub open spec fn pair_byte(c1: Color, c2: Color) -> u8 {
    (c1.code() * 16 + c2.code()) as u8
}

/// A byte packs two colour codes.
pub open spec fn is_pair_byte(value: u8) -> bool {
    value / 16 < 6 && value % 16 < 6
}

/// The first colour packed in a byte.
pub open spec fn pair_first(value: u8) -> Color {
    Color::of_code(value / 16)
}

/// The second colour packed in a byte.
pub open spec fn pair_second(value: u8) -> Color {
    Color::of_code(value % 16)
}

impl ColorPair {
    /// The byte holds two colour codes.
    pub open spec fn wf(self) -> bool {
        is_pair_byte(self.value)
    }

    /// Packs the two colours of an array.
    pub fn from_colors_array(colors: [Color; 2]) -> (pair: Self)
        ensures
            pair.value == pair_byte(colors[0], colors[1]),
            pair.wf(),
    {
        Self::from_colors(colors[0], colors[1])
    }

    /// Packs two colours: sixteen times the first code, plus the second.
    pub fn from_colors(c1: Color, c2: Color) -> (pair: Self)
        ensures
            pair.value == pair_byte(c1, c2),
            pair.wf(),
    {
        let a = c1.to_u8();
        let b = c2.to_u8();
        assert((a << 4) | b == a * 16 + b) by (bit_vector)
            requires
                a < 6,
                b < 6,
        ;
        Self { value: (a << 4) | b }
    }

    /// The two colours, as an array.
    pub fn to_colors_array(self) -> (colors: [Color; 2])
        requires
            self.wf(),
        ensures
            colors[0] == pair_first(self.value),
            colors[1] == pair_second(self.value),
    {
        let (c1, c2) = self.to_colors();
        [c1, c2]
    }

    /// The two colours that the byte packs.
    pub fn to_colors(self) -> (colors: (Color, Color))
        requires
            self.wf(),
        ensures
            colors.0 == pair_first(self.value),
            colors.1 == pair_second(self.value),
    {
        let v = self.value;
        assert((v & 0b1111_0000u8) >> 4 == v / 16) by (bit_vector);
        assert(v & 0b0000_1111u8 == v % 16) by (bit_vector);
        let c1 = Color::from_u8((v & 0b1111_0000u8) >> 4);
        let c2 = Color::from_u8(v & 0b0000_1111u8);
        (c1, c2)
    }
}

/// Packing two colours and unpacking the byte gives the two colours back.
pub proof fn lemma_pair_round_trip(c1: Color, c2: Color)
    ensures
        is_pair_byte(pair_byte(c1, c2)),
        pair_first(pair_byte(c1, c2)) == c1,
        pair_second(pair_byte(c1, c2)) == c2,
{
    lemma_color_code_round_trip(c1);
    lemma_color_code_round_trip(c2);
}

/// A well-formed byte is the packing of the two colours it unpacks to.
pub proof fn lemma_pair_byte_rebuilt(value: u8)
    requires
        is_pair_byte(value),
    ensures
        pair_byte(pair_first(value), pair_second(value)) == value,
{
}

/// The bytes of a cube packed two facelets to a byte.
pub open spec fn pack_pairs(s: Seq<Color>) -> Seq<u8> {
    Seq::new(27, |i: int| pair_byte(s[2 * i], s[2 * i + 1]))
}

/// The facelets that 27 bytes unpack to.
pub open spec fn unpack_pairs(bytes: Seq<u8>) -> Seq<Color> {
    Seq::new(
        54,
        |j: int|
            if j % 2 == 0 {
                pair_first(bytes[j / 2])
            } else {
                pair_second(bytes[j / 2])
            },
    )
}

/// The 27 bytes each pack two colour codes.
pub open spec fn are_pair_bytes(bytes: Seq<u8>) -> bool {
    bytes.len() == 27 && forall|i: int| 0 <= i < 27 ==> is_pair_byte(#[trigger] bytes[i])
}

/// A cube packed two facelets to a byte.
#[derive(Debug, Clone, Copy, PartialEq, Eq, PartialOrd, Ord)]
pub struct RubiksCubeCompressedX2 {
    pub pieces: [ColorPair; 27],
}

impl View for RubiksCubeCompressedX2 {
    type V = Seq<u8>;

    open spec fn view(&self) -> Seq<u8> {
        Seq::new(27, |i: int| self.pieces[i].value)
    }
}

impl RubiksCubeCompressedX2 {
    /// Every byte holds two colour codes.
    pub open spec fn wf(self) -> bool {
        are_pair_bytes(self@)
    }

    /// Packs a cube: facelets `2i` and `2i + 1` into byte `i`.
    pub fn from_rc(rc: RubiksCube) -> (packed: Self)
        ensures
            packed@ == pack_pairs(rc@),
            packed.wf(),
    {
        let mut self_ = Self { pieces: [ColorPair { value: 0 };27] };
        let mut i: usize = 0;
        while i < 27
            invariant
                i <= 27,
                forall|k: int|
                    0 <= k < i ==> (#[trigger] self_.pieces[k]).value == pair_byte(
                        rc@[2 * k],
                        rc@[2 * k + 1],
                    ),
            decreases 27 - i,
        {
            let color_pair = ColorPair::from_colors(rc.pieces[2 * i], rc.pieces[2 * i + 1]);
            self_.pieces[i] = color_pair;
            i += 1;
        }
        proof {
            assert(self_@ =~= pack_pairs(rc@));
            assert forall|k: int| 0 <= k < 27 implies is_pair_byte(#[trigger] self_@[k]) by {
                lemma_pair_round_trip(rc@[2 * k], rc@[2 * k + 1]);
            }
        }
        self_
    }

    /// The cube that the bytes unpack to.
    pub fn to_rc(&self) -> (rc: RubiksCube)
        requires
            self.wf(),
        ensures
            rc@ == unpack_pairs(self@),
    {
        let mut rc = RubiksCube::new();
        let mut i: usize = 0;
        while i < 27
            invariant
                i <= 27,
                self.wf(),
                forall|j: int| 0 <= j < 2 * i ==> #[trigger] rc@[j] == unpack_pairs(self@)[j],
            decreases 27 - i,
        {
            assert(is_pair_byte(self@[i as int]));
            let (c1, c2) = self.pieces[i].to_colors();
            let ghost before = rc@;
            rc.pieces[2 * i] = c1;
            rc.pieces[2 * i + 1] = c2;
            proof {
                let k = i as int;
                assert((2 * k) / 2 == k && (2 * k) % 2 == 0);
                assert((2 * k + 1) / 2 == k && (2 * k + 1) % 2 == 1);
                assert(rc@ =~= before.update(2 * k, c1).update(2 * k + 1, c2));
                assert forall|j: int| 0 <= j < 2 * (k + 1) implies #[trigger] rc@[j]
                    == unpack_pairs(self@)[j] by {
                    if j < 2 * k {
                        assert(rc@[j] == before[j]);
                    }
                }
            }
            i += 1;
        }
        proof {
            assert(rc@ =~= unpack_pairs(self@));
        }
        rc
    }
}

/// Unpacking the pairs of a packed cube gives the cube back.
pub proof fn lemma_pairs_round_trip(s: Seq<Color>)
    requires
        s.len() == 54,
    ensures
        are_pair_bytes(pack_pairs(s)),
        unpack_pairs(pack_pairs(s)) == s,
{
    let bytes = pack_pairs(s);
    assert forall|i: int| 0 <= i < 27 implies is_pair_byte(#[trigger] bytes[i]) by {
        lemma_pair_round_trip(s[2 * i], s[2 * i + 1]);
    }
    assert forall|j: int| 0 <= j < 54 implies unpack_pairs(bytes)[j] == s[j] by {
        let i = j / 2;
        lemma_pair_round_trip(s[2 * i], s[2 * i + 1]);
    }
    assert(unpack_pairs(bytes) =~= s);
}

/// Well-formed bytes are the packing of the cube they unpack to.
pub proof fn lemma_pairs_rebuilt(bytes: Seq<u8>)
    requires
        are_pair_bytes(bytes),
    ensures
        pack_pairs(unpack_pairs(bytes)) == bytes,
{
    assert forall|i: int| 0 <= i < 27 implies pack_pairs(unpack_pairs(bytes))[i] == bytes[i] by {
        lemma_pair_byte_rebuilt(bytes[i]);
    }
    assert(pack_pairs(unpack_pairs(bytes)) =~= bytes);
}

/// Three colours in one byte, as a number in base six.
#[derive(Debug, Clone, Copy, PartialEq, Eq, PartialOrd, Ord)]
pub struct ColorTriple {
    pub value: u8,
}

/// The byte that packs three colour codes.
pub open spec fn triple_byte(c1: Color, c2: Color, c3: Color) -> u8 {
    (c1.code() * 36 + c2.code() * 6 + c3.code()) as u8
}

/// A byte packs three colour codes.
pub open spec fn is_triple_byte(value: u8) -> bool {
    value < 216
}

/// The first colour packed in a byte.
pub open spec fn triple_first(value: u8) -> Color {
    Color::of_code(((value / 36) % 6) as u8)
}

/// The second colour packed in a byte.
pub open spec fn triple_second(value: u8) -> Color {
    Color::of_code(((value / 6) % 6) as u8)
}

/// The third colour packed in a byte.
pub open spec fn triple_third(value: u8) -> Color {
    Color::of_code((value % 6) as u8)
}

impl ColorTriple {
    /// The byte holds three colour codes.
    pub open spec fn wf(self) -> bool {
        is_triple_byte(self.value)
    }

    /// Packs the three colours of an array.
    pub fn from_colors_array(colors: [Color; 3]) -> (triple: Self)
        ensures
            triple.value == triple_byte(colors[0], colors[1], colors[2]),
            triple.wf(),
    {
        Self::from_colors(colors[0], colors[1], colors[2])
    }

    /// Packs three colours: their codes as the digits of a number in base six.
    pub fn from_colors(c1: Color, c2: Color, c3: Color) -> (triple: Self)
        ensures
            triple.value == triple_byte(c1, c2, c3),
            triple.wf(),
    {
        Self { value: c1.to_u8() * 36 + c2.to_u8() * 6 + c3.to_u8() }
    }

    /// The three colours, as an array.
    pub fn to_colors_array(self) -> (colors: [Color; 3])
        ensures
            colors[0] == triple_first(self.value),
            colors[1] == triple_second(self.value),
            colors[2] == triple_third(self.value),
    {
        let (c1, c2, c3) = self.to_colors();
        [c1, c2, c3]
    }

    /// The three colours that the byte packs. Of a byte above 215 the first
    /// digit is taken modulo six.
    pub fn to_colors(self) -> (colors: (Color, Color, Color))
        ensures
            colors.0 == triple_first(self.value),
            colors.1 == triple_second(self.value),
            colors.2 == triple_third(self.value),
    {
        let c3 = Color::from_u8(self.value % 6);
        let c2 = Color::from_u8((self.value / 6) % 6);
        let c1 = Color::from_u8((self.value / 36) % 6);
        (c1, c2, c3)
    }
}

/// Packing three colours and unpacking the byte gives the three colours back.
pub proof fn lemma_triple_round_trip(c1: Color, c2: Color, c3: Color)
    ensures
        is_triple_byte(triple_byte(c1, c2, c3)),
        triple_first(triple_byte(c1, c2, c3)) == c1,
        triple_second(triple_byte(c1, c2, c3)) == c2,
        triple_third(triple_byte(c1, c2, c3)) == c3,
{
    lemma_color_code_round_trip(c1);
    lemma_color_code_round_trip(c2);
    lemma_color_code_round_trip(c3);
}

/// A well-formed byte is the packing of the three colours it unpacks to.
pub proof fn lemma_triple_byte_rebuilt(value: u8)
    requires
        is_triple_byte(value),
    ensures
        triple_byte(triple_first(value), triple_second(value), triple_third(value)) == value,
{
}

/// The bytes of a cube packed three facelets to a byte.
pub open spec fn pack_triples(s: Seq<Color>) -> Seq<u8> {
    Seq::new(18, |i: int| triple_byte(s[3 * i], s[3 * i + 1], s[3 * i + 2]))
}

/// The facelets that 18 bytes unpack to.
pub open spec fn unpack_triples(bytes: Seq<u8>) -> Seq<Color> {
    Seq::new(
        54,
        |j: int|
            if j % 3 == 0 {
                triple_first(bytes[j / 3])
            } else if j % 3 == 1 {
                triple_second(bytes[j / 3])
            } else {
                triple_third(bytes[j / 3])
            },
    )
}

/// The 18 bytes each pack three colour codes.
pub open spec fn are_triple_bytes(bytes: Seq<u8>) -> bool {
    bytes.len() == 18 && forall|i: int| 0 <= i < 18 ==> is_triple_byte(#[trigger] bytes[i])
}

/// A cube packed three facelets to a byte.
#[derive(Debug, Clone, Copy, PartialEq, Eq, PartialOrd, Ord)]
pub struct RubiksCubeCompressedX3 {
    pub pieces: [ColorTriple; 18],
}

impl View for RubiksCubeCompressedX3 {
    type V = Seq<u8>;

    open spec fn view(&self) -> Seq<u8> {
        Seq::new(18, |i: int| self.pieces[i].value)
    }
}

impl RubiksCubeCompressedX3 {
    /// Every byte holds three colour codes.
    pub open spec fn wf(self) -> bool {
        are_triple_bytes(self@)
    }

    /// Packs a cube: facelets `3i`, `3i + 1` and `3i + 2` into byte `i`.
    pub fn from_rc(rc: RubiksCube) -> (packed: Self)
        ensures
            packed@ == pack_triples(rc@),
            packed.wf(),
    {
        let mut self_ = Self { pieces: [ColorTriple { value: 0 };18] };
        let mut i: usize = 0;
        while i < 18
            invariant
                i <= 18,
                forall|k: int|
                    0 <= k < i ==> (#[trigger] self_.pieces[k]).value == triple_byte(
                        rc@[3 * k],
                        rc@[3 * k + 1],
                        rc@[3 * k + 2],
                    ),
            decreases 18 - i,
        {
            let color_triple = ColorTriple::from_colors(
                rc.pieces[3 * i],
                rc.pieces[3 * i + 1],
                rc.pieces[3 * i + 2],
            );
            self_.pieces[i] = color_triple;
            i += 1;
        }
        proof {
            assert(self_@ =~= pack_triples(rc@));
            assert forall|k: int| 0 <= k < 18 implies is_triple_byte(#[trigger] self_@[k]) by {
                lemma_triple_round_trip(rc@[3 * k], rc@[3 * k + 1], rc@[3 * k + 2]);
            }
        }
        self_
    }

    /// The cube that the bytes unpack to.
    pub fn to_rc(&self) -> (rc: RubiksCube)
        ensures
            rc@ == unpack_triples(self@),
    {
        let mut rc = RubiksCube::new();
        let mut i: usize = 0;
        while i < 18
            invariant
                i <= 18,
                forall|j: int| 0 <= j < 3 * i ==> #[trigger] rc@[j] == unpack_triples(self@)[j],
            decreases 18 - i,
        {
            let (c1, c2, c3) = self.pieces[i].to_colors();
            let ghost before = rc@;
            rc.pieces[3 * i] = c1;
            rc.pieces[3 * i + 1] = c2;
            rc.pieces[3 * i + 2] = c3;
            proof {
                let k = i as int;
                assert((3 * k) / 3 == k && (3 * k) % 3 == 0);
                assert((3 * k + 1) / 3 == k && (3 * k + 1) % 3 == 1);
                assert((3 * k + 2) / 3 == k && (3 * k + 2) % 3 == 2);
                assert(rc@ =~= before.update(3 * k, c1).update(3 * k + 1, c2).update(
                    3 * k + 2,
                    c3,
                ));
                assert forall|j: int| 0 <= j < 3 * (k + 1) implies #[trigger] rc@[j]
                    == unpack_triples(self@)[j] by {
                    if j < 3 * k {
                        assert(rc@[j] == before[j]);
                    }
                }
            }
            i += 1;
        }
        proof {
            assert(rc@ =~= unpack_triples(self@));
        }
        rc
    }
}

/// Unpacking the triples of a packed cube gives the cube back.
pub proof fn lemma_triples_round_trip(s: Seq<Color>)
    requires
        s.len() == 54,
    ensures
        are_triple_bytes(pack_triples(s)),
        unpack_triples(pack_triples(s)) == s,
{
    let bytes = pack_triples(s);
    assert forall|i: int| 0 <= i < 18 implies is_triple_byte(#[trigger] bytes[i]) by {
        lemma_triple_round_trip(s[3 * i], s[3 * i + 1], s[3 * i + 2]);
    }
    assert forall|j: int| 0 <= j < 54 implies unpack_triples(bytes)[j] == s[j] by {
        let i = j / 3;
        lemma_triple_round_trip(s[3 * i], s[3 * i + 1], s[3 * i + 2]);
    }
    assert(unpack_triples(bytes) =~= s);
}

/// Well-formed bytes are the packing of the cube they unpack to.
pub proof fn lemma_triples_rebuilt(bytes: Seq<u8>)
    requires
        are_triple_bytes(bytes),
    ensures
        pack_triples(unpack_triples(bytes)) == bytes,
{
    assert forall|i: int| 0 <= i < 18 implies pack_triples(unpack_triples(bytes))[i]
        == bytes[i] by {
        lemma_triple_byte_rebuilt(bytes[i]);
    }
    assert(pack_triples(unpack_triples(bytes)) =~= bytes);
}

/// Packed cubes with the same bytes are the same value.
pub proof fn lemma_pairs_by_bytes(a: RubiksCubeCompressedX2, b: RubiksCubeCompressedX2)
    requires
        a@ == b@,
    ensures
        a == b,
{
    assert forall|i: int| 0 <= i < 27 implies a.pieces[i] == b.pieces[i] by {
        assert(a@[i] == a.pieces[i].value);
        assert(b@[i] == b.pieces[i].value);
    }
    assert(a.pieces =~= b.pieces);
}

/// Packed cubes are ordered by their bytes, byte 0 counting most.
impl TotalOrder for RubiksCubeCompressedX2 {
    open spec fn lt(self, other: Self) -> bool {
        lex_lt(self@, other@)
    }

    proof fn lemma_irreflexive(a: Self) {
        lemma_lex_irreflexive(a@);
    }

    proof fn lemma_transitive(a: Self, b: Self, c: Self) {
        lemma_lex_transitive(a@, b@, c@);
    }

    proof fn lemma_connected(a: Self, b: Self) {
        lemma_lex_connected(a@, b@);
        if a@ == b@ {
            lemma_pairs_by_bytes(a, b);
        }
    }

    fn compare(&self, other: &Self) -> (c: Comparison) {
        let mut i: usize = 0;
        while i < 27
            invariant
                i <= 27,
                agree_before(self@, other@, i as int),
            decreases 27 - i,
        {
            let a = self.pieces[i].value;
            let b = other.pieces[i].value;
            if a < b {
                proof {
                    lemma_lex_decided(self@, other@, i as int);
                }
                return Comparison::Less;
            }
            if a > b {
                proof {
                    assert(agree_before(other@, self@, i as int));
                    lemma_lex_decided(other@, self@, i as int);
                }
                return Comparison::Greater;
            }
            i += 1;
        }
        proof {
            assert(self@ =~= other@);
            lemma_pairs_by_bytes(*self, *other);
            lemma_lex_irreflexive(self@);
        }
        Comparison::Equal
    }
}

/// Packed cubes with the same bytes are the same value.
pub proof fn lemma_triples_by_bytes(a: RubiksCubeCompressedX3, b: RubiksCubeCompressedX3)
    requires
        a@ == b@,
    ensures
        a == b,
{
    assert forall|i: int| 0 <= i < 18 implies a.pieces[i] == b.pieces[i] by {
        assert(a@[i] == a.pieces[i].value);
        assert(b@[i] == b.pieces[i].value);
    }
    assert(a.pieces =~= b.pieces);
}

/// Packed cubes are ordered by their bytes, byte 0 counting most.
impl TotalOrder for RubiksCubeCompressedX3 {
    open spec fn lt(self, other: Self) -> bool {
        lex_lt(self@, other@)
    }

    proof fn lemma_irreflexive(a: Self) {
        lemma_lex_irreflexive(a@);
    }

    proof fn lemma_transitive(a: Self, b: Self, c: Self) {
        lemma_lex_transitive(a@, b@, c@);
    }

    proof fn lemma_connected(a: Self, b: Self) {
        lemma_lex_connected(a@, b@);
        if a@ == b@ {
            lemma_triples_by_bytes(a, b);
        }
    }

    fn compare(&self, other: &Self) -> (c: Comparison) {
        let mut i: usize = 0;
        while i < 18
            invariant
                i <= 18,
                agree_before(self@, other@, i as int),
            decreases 18 - i,
        {
            let a = self.pieces[i].value;
            let b = other.pieces[i].value;
            if a < b {
                proof {
                    lemma_lex_decided(self@, other@, i as int);
                }
                return Comparison::Less;
            }
            if a > b {
                proof {
                    assert(agree_before(other@, self@, i as int));
                    lemma_lex_decided(other@, self@, i as int);
                }
                return Comparison::Greater;
            }
            i += 1;
        }
        proof {
            assert(self@ =~= other@);
            lemma_triples_by_bytes(*self, *other);
            lemma_lex_irreflexive(self@);
        }
        Comparison::Equal
    }
}

impl RubiksCube {
    /// The cube packed two facelets to a byte.
    pub fn to_compressed_x2(&self) -> (packed: RubiksCubeCompressedX2)
        ensures
            packed@ == pack_pairs(self@),
            packed.wf(),
    {
        RubiksCubeCompressedX2::from_rc(*self)
    }

    /// The cube packed three facelets to a byte.
    pub fn to_compressed_x3(&self) -> (packed: RubiksCubeCompressedX3)
        ensures
            packed@ == pack_triples(self@),
            packed.wf(),
    {
        RubiksCubeCompressedX3::from_rc(*self)
    }
}

/// Bytes that come first unpack to a cube that comes first.
proof fn lemma_pairs_rise(x: Seq<u8>, y: Seq<u8>)
    requires
        are_pair_bytes(x),
        are_pair_bytes(y),
        lex_lt(x, y),
    ensures
        cube_lt(unpack_pairs(x), unpack_pairs(y)),
{
    let k = choose|k: int|
        0 <= k < x.len() && k < y.len() && #[trigger] agree_before(x, y, k) && x[k] < y[k];
    let kx = cube_key(unpack_pairs(x));
    let ky = cube_key(unpack_pairs(y));
    assert(is_pair_byte(x[k]) && is_pair_byte(y[k]));
    assert forall|j: int| 0 <= j < 2 * k implies kx[j] == ky[j] by {
        assert(x[j / 2] == y[j / 2]);
    }
    assert((2 * k) / 2 == k && (2 * k) % 2 == 0);
    assert((2 * k + 1) / 2 == k && (2 * k + 1) % 2 == 1);
    assert(kx[2 * k] == x[k] / 16 && ky[2 * k] == y[k] / 16);
    assert(kx[2 * k + 1] == x[k] % 16 && ky[2 * k + 1] == y[k] % 16);
    if x[k] / 16 < y[k] / 16 {
        assert(agree_before(kx, ky, 2 * k));
    } else {
        assert forall|j: int| 0 <= j < 2 * k + 1 implies kx[j] == ky[j] by {
            if j < 2 * k {
                assert(x[j / 2] == y[j / 2]);
            }
        }
        assert(agree_before(kx, ky, 2 * k + 1));
    }
}

/// Packing in pairs keeps the order of cubes.
pub proof fn lemma_pairs_keep_order(x: Seq<u8>, y: Seq<u8>)
    requires
        are_pair_bytes(x),
        are_pair_bytes(y),
    ensures
        lex_lt(x, y) <==> cube_lt(unpack_pairs(x), unpack_pairs(y)),
{
    let kx = cube_key(unpack_pairs(x));
    let ky = cube_key(unpack_pairs(y));
    if lex_lt(x, y) {
        lemma_pairs_rise(x, y);
    }
    if cube_lt(unpack_pairs(x), unpack_pairs(y)) && !lex_lt(x, y) {
        lemma_lex_connected(x, y);
        lemma_lex_irreflexive(kx);
        if lex_lt(y, x) {
            lemma_pairs_rise(y, x);
            lemma_lex_transitive(kx, ky, kx);
        }
    }
}

/// Of two bytes that pack triples, the smaller has the smaller colour at
/// the first place where the triples differ.
proof fn lemma_triple_bytes_rise(a: u8, b: u8)
    requires
        is_triple_byte(a),
        is_triple_byte(b),
        a < b,
    ensures
        ({
            let a1 = triple_first(a).code();
            let a2 = triple_second(a).code();
            let a3 = triple_third(a).code();
            let b1 = triple_first(b).code();
            let b2 = triple_second(b).code();
            let b3 = triple_third(b).code();
            a1 < b1 || (a1 == b1 && (a2 < b2 || (a2 == b2 && a3 < b3)))
        }),
{
    let a1 = (a / 36) % 6;
    let a2 = (a / 6) % 6;
    let a3 = a % 6;
    let b1 = (b / 36) % 6;
    let b2 = (b / 6) % 6;
    let b3 = b % 6;
    assert(a == 36 * a1 + 6 * a2 + a3);
    assert(b == 36 * b1 + 6 * b2 + b3);
    assert(triple_first(a).code() == a1 && triple_second(a).code() == a2 && triple_third(a).code()
        == a3);
    assert(triple_first(b).code() == b1 && triple_second(b).code() == b2 && triple_third(b).code()
        == b3);
}

/// Bytes that come first unpack to a cube that comes first.
proof fn lemma_triples_rise(x: Seq<u8>, y: Seq<u8>)
    requires
        are_triple_bytes(x),
        are_triple_bytes(y),
        lex_lt(x, y),
    ensures
        cube_lt(unpack_triples(x), unpack_triples(y)),
{
    let k = choose|k: int|
        0 <= k < x.len() && k < y.len() && #[trigger] agree_before(x, y, k) && x[k] < y[k];
    let ux = unpack_triples(x);
    let uy = unpack_triples(y);
    let kx = cube_key(ux);
    let ky = cube_key(uy);
    assert(is_triple_byte(x[k]) && is_triple_byte(y[k]));
    lemma_triple_bytes_rise(x[k], y[k]);
    assert((3 * k) / 3 == k && (3 * k) % 3 == 0);
    assert((3 * k + 1) / 3 == k && (3 * k + 1) % 3 == 1);
    assert((3 * k + 2) / 3 == k && (3 * k + 2) % 3 == 2);
    assert(ux[3 * k] == triple_first(x[k]) && uy[3 * k] == triple_first(y[k]));
    assert(ux[3 * k + 1] == triple_second(x[k]) && uy[3 * k + 1] == triple_second(y[k]));
    assert(ux[3 * k + 2] == triple_third(x[k]) && uy[3 * k + 2] == triple_third(y[k]));
    assert(kx[3 * k] == ux[3 * k].code() && ky[3 * k] == uy[3 * k].code());
    assert(kx[3 * k + 1] == ux[3 * k + 1].code() && ky[3 * k + 1] == uy[3 * k + 1].code());
    assert(kx[3 * k + 2] == ux[3 * k + 2].code() && ky[3 * k + 2] == uy[3 * k + 2].code());
    assert forall|j: int| 0 <= j < 3 * k implies kx[j] == ky[j] by {
        assert(x[j / 3] == y[j / 3]);
    }
    let at = if kx[3 * k] < ky[3 * k] {
        3 * k
    } else if kx[3 * k + 1] < ky[3 * k + 1] {
        3 * k + 1
    } else {
        3 * k + 2
    };
    assert(agree_before(kx, ky, at));
    assert(kx[at] < ky[at]);
}

/// Packing in triples keeps the order of cubes.
pub proof fn lemma_triples_keep_order(x: Seq<u8>, y: Seq<u8>)
    requires
        are_triple_bytes(x),
        are_triple_bytes(y),
    ensures
        lex_lt(x, y) <==> cube_lt(unpack_triples(x), unpack_triples(y)),
{
    let kx = cube_key(unpack_triples(x));
    let ky = cube_key(unpack_triples(y));
    if lex_lt(x, y) {
        lemma_triples_rise(x, y);
    }
    if cube_lt(unpack_triples(x), unpack_triples(y)) && !lex_lt(x, y) {
        lemma_lex_connected(x, y);
        lemma_lex_irreflexive(kx);
        if lex_lt(y, x) {
            lemma_triples_rise(y, x);
            lemma_lex_transitive(kx, ky, kx);
        }
    }
}

/// A way to hold a cube: the cube itself, or one of its packed forms.
/// The values that are packings of cubes correspond one to one with the
/// cubes, and carry a strict total order.
pub trait Packing: TotalOrder {
    /// The value is the packing of some cube.
    spec fn is_packed(self) -> bool;

    /// The facelets of the cube that the value stands for.
    spec fn facelets(self) -> Seq<Color>;

    /// A packed value stands for a cube of 54 facelets.
    proof fn lemma_facelets_len(a: Self)
        requires
            a.is_packed(),
        ensures
            a.facelets().len() == 54,
    ;

    /// Packed values that stand for one cube are one value.
    proof fn lemma_facelets_injective(a: Self, b: Self)
        requires
            a.is_packed(),
            b.is_packed(),
            a.facelets() == b.facelets(),
        ensures
            a == b,
    ;

    /// Packed values come in the order of the cubes they stand for.
    proof fn lemma_order_by_facelets(a: Self, b: Self)
        requires
            a.is_packed(),
            b.is_packed(),
        ensures
            a.lt(b) <==> cube_lt(a.facelets(), b.facelets()),
    ;

    /// Packs a cube.
    fn pack(rc: &RubiksCube) -> (packed: Self)
        ensures
            packed.is_packed(),
            packed.facelets() == rc@,
    ;

    /// The cube that the value stands for.
    fn unpack(&self) -> (rc: RubiksCube)
        requires
            self.is_packed(),
        ensures
            rc@ == self.facelets(),
    ;
}

impl Packing for RubiksCube {
    open spec fn is_packed(self) -> bool {
        true
    }

    open spec fn facelets(self) -> Seq<Color> {
        self@
    }

    proof fn lemma_facelets_len(a: Self) {
    }

    proof fn lemma_facelets_injective(a: Self, b: Self) {
        lemma_cube_by_facelets(a, b);
    }

    proof fn lemma_order_by_facelets(a: Self, b: Self) {
    }

    fn pack(rc: &RubiksCube) -> (packed: Self) {
        *rc
    }

    fn unpack(&self) -> (rc: RubiksCube) {
        *self
    }
}

impl Packing for RubiksCubeCompressedX2 {
    open spec fn is_packed(self) -> bool {
        self.wf()
    }

    open spec fn facelets(self) -> Seq<Color> {
        unpack_pairs(self@)
    }

    proof fn lemma_facelets_len(a: Self) {
    }

    proof fn lemma_facelets_injective(a: Self, b: Self) {
        lemma_pairs_rebuilt(a@);
        lemma_pairs_rebuilt(b@);
        lemma_pairs_by_bytes(a, b);
    }

    proof fn lemma_order_by_facelets(a: Self, b: Self) {
        lemma_pairs_keep_order(a@, b@);
    }

    fn pack(rc: &RubiksCube) -> (packed: Self) {
        proof {
            lemma_pairs_round_trip(rc@);
        }
        RubiksCubeCompressedX2::from_rc(*rc)
    }

    fn unpack(&self) -> (rc: RubiksCube) {
        self.to_rc()
    }
}

impl Packing for RubiksCubeCompressedX3 {
    open spec fn is_packed(self) -> bool {
        self.wf()
    }

    open spec fn facelets(self) -> Seq<Color> {
        unpack_triples(self@)
    }

    proof fn lemma_facelets_len(a: Self) {
    }

    proof fn lemma_facelets_injective(a: Self, b: Self) {
        lemma_triples_rebuilt(a@);
        lemma_triples_rebuilt(b@);
        lemma_triples_by_bytes(a, b);
    }

    proof fn lemma_order_by_facelets(a: Self, b: Self) {
        lemma_triples_keep_order(a@, b@);
    }

    fn pack(rc: &RubiksCube) -> (packed: Self) {
        proof {
            lemma_triples_round_trip(rc@);
        }
        RubiksCubeCompressedX3::from_rc(*rc)
    }

    fn unpack(&self) -> (rc: RubiksCube) {
        self.to_rc()
    }
}

} // verus!
