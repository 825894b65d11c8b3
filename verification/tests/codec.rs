use rubiks_solver::cube::RubiksCube;
use rubiks_solver::moves::{Move, ALL_MOVES};
use rubiks_solver::order::{Comparison, TotalOrder};
use rubiks_solver::packed::{
    ColorPair, ColorTriple, Packing, RubiksCubeCompressedX2, RubiksCubeCompressedX3,
};
use rubiks_solver::color::ALL_COLORS;
use rubiks_solver::Color;

fn scrambled() -> RubiksCube {
    let mut rc = RubiksCube::new();
    rc.make_moves(vec![
        Move::Right,
        Move::Left,
        Move::Bottom,
        Move::RightS,
        Move::Back,
        Move::Top,
        Move::BackS,
        Move::Ys,
        Move::Z,
        Move::TopS,
    ]);
    rc
}

#[test]
fn color_codes_run_from_zero_to_five() {
    assert_eq!(Color::W.to_u8(), 0);
    assert_eq!(Color::Y.to_u8(), 1);
    assert_eq!(Color::O.to_u8(), 2);
    assert_eq!(Color::R.to_u8(), 3);
    assert_eq!(Color::G.to_u8(), 4);
    assert_eq!(Color::B.to_u8(), 5);
    for (i, c) in ALL_COLORS.iter().enumerate() {
        assert_eq!(c.to_u8() as usize, i);
        assert_eq!(Color::from_u8(i as u8), *c);
    }
}

#[test]
fn pair_packs_into_two_nibbles() {
    assert_eq!(ColorPair::from_colors(Color::R, Color::G).value, 0x34);
    assert_eq!(ColorPair::from_colors(Color::W, Color::W).value, 0x00);
    assert_eq!(ColorPair::from_colors(Color::B, Color::B).value, 0x55);
    assert_eq!(ColorPair::from_colors_array([Color::Y, Color::O]).value, 0x12);
    assert_eq!(ColorPair { value: 0x34 }.to_colors(), (Color::R, Color::G));
    assert_eq!(ColorPair { value: 0x50 }.to_colors_array(), [Color::B, Color::W]);
}

#[test]
fn pair_round_trips_for_all_colors() {
    for a in ALL_COLORS {
        for b in ALL_COLORS {
            assert_eq!(ColorPair::from_colors(a, b).to_colors(), (a, b));
        }
    }
}

#[test]
fn triple_packs_in_base_six() {
    assert_eq!(ColorTriple::from_colors(Color::R, Color::G, Color::B).value, 137);
    assert_eq!(ColorTriple::from_colors(Color::W, Color::W, Color::W).value, 0);
    assert_eq!(ColorTriple::from_colors(Color::B, Color::B, Color::B).value, 215);
    assert_eq!(ColorTriple::from_colors_array([Color::Y, Color::W, Color::O]).value, 38);
    assert_eq!(ColorTriple { value: 137 }.to_colors(), (Color::R, Color::G, Color::B));
    assert_eq!(ColorTriple { value: 38 }.to_colors_array(), [Color::Y, Color::W, Color::O]);
}

#[test]
fn triple_round_trips_for_all_colors() {
    for a in ALL_COLORS {
        for b in ALL_COLORS {
            for c in ALL_COLORS {
                assert_eq!(ColorTriple::from_colors(a, b, c).to_colors(), (a, b, c));
            }
        }
    }
}

#[test]
fn triple_unpacks_any_byte() {
    // 255 = 7 * 36 + 0 * 6 + 3; the first digit is taken modulo six.
    assert_eq!(ColorTriple { value: 255 }.to_colors(), (Color::Y, Color::W, Color::R));
}

#[test]
fn packed_cubes_round_trip() {
    for rc in [RubiksCube::new(), scrambled()] {
        assert_eq!(RubiksCubeCompressedX2::from_rc(rc).to_rc(), rc);
        assert_eq!(RubiksCubeCompressedX3::from_rc(rc).to_rc(), rc);
        assert_eq!(rc.to_compressed_x2().to_rc(), rc);
        assert_eq!(rc.to_compressed_x3().to_rc(), rc);
        assert_eq!(<RubiksCube as Packing>::pack(&rc).unpack(), rc);
        assert_eq!(<RubiksCubeCompressedX2 as Packing>::pack(&rc).unpack(), rc);
        assert_eq!(<RubiksCubeCompressedX3 as Packing>::pack(&rc).unpack(), rc);
    }
}

#[test]
fn packed_cube_holds_the_facelets_in_order() {
    let x2 = RubiksCube::new().to_compressed_x2();
    assert_eq!(x2.pieces.len(), 27);
    // facelets 0 and 1 are yellow; facelets 8 and 9 are yellow and blue
    assert_eq!(x2.pieces[0].value, 0x11);
    assert_eq!(x2.pieces[4].value, 0x15);
    let x3 = RubiksCube::new().to_compressed_x3();
    assert_eq!(x3.pieces.len(), 18);
    // facelets 9, 10, 11 are blue
    assert_eq!(x3.pieces[3].value, 5 * 36 + 5 * 6 + 5);
    assert_eq!(x3.pieces[17].value, 0);
}

#[test]
fn the_packings_keep_the_order_of_cubes() {
    let mut cubes = vec![RubiksCube::new(), scrambled()];
    for m in ALL_MOVES {
        cubes.push(RubiksCube::new().moved(m));
    }
    for a in &cubes {
        for b in &cubes {
            let plain = a.compare(b);
            assert_eq!(a.to_compressed_x2().compare(&b.to_compressed_x2()), plain);
            assert_eq!(a.to_compressed_x3().compare(&b.to_compressed_x3()), plain);
        }
    }
    assert_eq!(scrambled().compare(&scrambled()), Comparison::Equal);
}
