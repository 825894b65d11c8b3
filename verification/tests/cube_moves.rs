use rubiks_solver::cube::RubiksCube;
use rubiks_solver::moves::{Move, ALL_MOVES};
use rubiks_solver::order::{Comparison, TotalOrder};
use rubiks_solver::rotate::ExtArrayRotate4;
use rubiks_solver::Color;

const W: Color = Color::W;
const Y: Color = Color::Y;
const O: Color = Color::O;
const R: Color = Color::R;
const G: Color = Color::G;
const B: Color = Color::B;

#[test]
fn front_solved() {
    let mut rc = RubiksCube::new();
    rc.front();
    assert_eq!(
        RubiksCube::from([
            Y, Y, Y, //
            Y, Y, Y, //
            B, B, B, //
            B, B, W, R, R, R, Y, G, G, O, O, O, //
            B, B, W, R, R, R, Y, G, G, O, O, O, //
            B, B, W, R, R, R, Y, G, G, O, O, O, //
            G, G, G, //
            W, W, W, //
            W, W, W, //
        ]),
        rc
    )
}

#[test]
fn new() {
    let expected = [
        "      Y Y Y\n",
        "      Y Y Y\n",
        "      Y Y Y\n",
        "B B B R R R G G G O O O\n",
        "B B B R R R G G G O O O\n",
        "B B B R R R G G G O O O\n",
        "      W W W\n",
        "      W W W\n",
        "      W W W\n",
    ]
    .concat();
    let actual = RubiksCube::new().to_string1();
    println!("expected:\n{expected}");
    println!("actual:\n{actual}");
    assert_eq!(expected, actual)
}

#[test]
fn rotate4() {
    //              0    1    2    3    4    5    6    7
    let mut arr = ['a', 'b', 'c', 'd', 'e', 'f', 'g', 'h'];
    arr.rotate4(1, 4, 5, 6);
    assert_eq!(['a', 'g', 'c', 'd', 'b', 'e', 'f', 'h'], arr);
}

#[test]
fn rotate4_with_a_repeated_slot_assigns_in_turn() {
    let mut arr = [10u8, 20, 30];
    arr.rotate4(0, 1, 1, 2);
    // slot 2 takes slot 1, slot 1 takes itself, slot 1 takes slot 0, slot 0 takes old slot 2
    assert_eq!([30, 10, 20], arr);
}

#[test]
fn new_is_the_solved_table() {
    assert_eq!(RubiksCube::new().pieces, RubiksCube::NEW);
    assert_eq!(RubiksCube::from(RubiksCube::NEW), RubiksCube::new());
    assert_eq!(RubiksCube::NEW[8], Color::Y);
    assert_eq!(RubiksCube::NEW[9], Color::B);
    assert_eq!(RubiksCube::NEW[12], Color::R);
    assert_eq!(RubiksCube::NEW[15], Color::G);
    assert_eq!(RubiksCube::NEW[18], Color::O);
    assert_eq!(RubiksCube::NEW[45], Color::W);
}

#[test]
fn to_string1_after_a_top_turn() {
    let mut rc = RubiksCube::new();
    rc.top();
    let expected = [
        "      Y Y Y\n",
        "      Y Y Y\n",
        "      Y Y Y\n",
        "R R R G G G O O O B B B\n",
        "B B B R R R G G G O O O\n",
        "B B B R R R G G G O O O\n",
        "      W W W\n",
        "      W W W\n",
        "      W W W\n",
    ]
    .concat();
    assert_eq!(expected, rc.to_string1());
}

#[test]
fn every_move_is_undone_by_its_inverse() {
    let mut scrambled = RubiksCube::new();
    scrambled.make_moves(vec![Move::Right, Move::Top, Move::FrontS, Move::Y, Move::Left]);
    for m in ALL_MOVES {
        let mut rc = scrambled;
        rc.make_move(m);
        assert_ne!(rc, scrambled, "{m:?} moved nothing");
        rc.make_move(m.inverted());
        assert_eq!(rc, scrambled, "{m:?} then its inverse");
    }
}

#[test]
fn inverted_pairs_each_move_with_its_neighbour() {
    assert_eq!(Move::Front.inverted(), Move::FrontS);
    assert_eq!(Move::FrontS.inverted(), Move::Front);
    assert_eq!(Move::Bottom.inverted(), Move::BottomS);
    assert_eq!(Move::X.inverted(), Move::Xs);
    assert_eq!(Move::Ys.inverted(), Move::Y);
    assert_eq!(Move::Zs.inverted(), Move::Z);
    for m in ALL_MOVES {
        assert_eq!(m.inverted().inverted(), m);
    }
}

#[test]
fn four_quarter_turns_come_back() {
    for m in ALL_MOVES {
        let mut rc = RubiksCube::new();
        rc.make_moves(vec![m, m, m, m]);
        assert_eq!(rc, RubiksCube::new(), "{m:?} four times");
    }
}

#[test]
fn from_index_follows_the_listing() {
    for i in 0..18 {
        assert_eq!(Move::from_index(i), ALL_MOVES[i]);
    }
    assert_eq!(Move::from_index(0), Move::Front);
    assert_eq!(Move::from_index(17), Move::Zs);
}

#[test]
fn make_move_dispatches_to_the_named_turn() {
    let named: [fn(&mut RubiksCube); 18] = [
        RubiksCube::front,
        RubiksCube::front_s,
        RubiksCube::back,
        RubiksCube::back_s,
        RubiksCube::left,
        RubiksCube::left_s,
        RubiksCube::right,
        RubiksCube::right_s,
        RubiksCube::top,
        RubiksCube::top_s,
        RubiksCube::bottom,
        RubiksCube::bottom_s,
        RubiksCube::x,
        RubiksCube::x_s,
        RubiksCube::y,
        RubiksCube::y_s,
        RubiksCube::z,
        RubiksCube::z_s,
    ];
    let mut start = RubiksCube::new();
    start.make_moves(vec![Move::Left, Move::Top, Move::Back]);
    for (i, turn) in named.iter().enumerate() {
        let mut by_name = start;
        turn(&mut by_name);
        let mut by_move = start;
        by_move.make_move(ALL_MOVES[i]);
        assert_eq!(by_name, by_move);
        assert_eq!(start.moved(ALL_MOVES[i]), by_move);
    }
}

fn face_colours(rc: &RubiksCube) -> Option<[Color; 6]> {
    let faces: [[usize; 9]; 6] = [
        [0, 1, 2, 3, 4, 5, 6, 7, 8],
        [9, 10, 11, 21, 22, 23, 33, 34, 35],
        [12, 13, 14, 24, 25, 26, 36, 37, 38],
        [15, 16, 17, 27, 28, 29, 39, 40, 41],
        [18, 19, 20, 30, 31, 32, 42, 43, 44],
        [45, 46, 47, 48, 49, 50, 51, 52, 53],
    ];
    let mut colours = [W; 6];
    for (f, face) in faces.iter().enumerate() {
        if face.iter().any(|i| rc.pieces[*i] != rc.pieces[face[0]]) {
            return None;
        }
        colours[f] = rc.pieces[face[0]];
    }
    Some(colours)
}

#[test]
fn whole_cube_turns_keep_each_face_of_one_colour() {
    // top, left, front, right, back, bottom
    assert_eq!(face_colours(&RubiksCube::new()), Some([Y, B, R, G, O, W]));
    assert_eq!(face_colours(&RubiksCube::new().moved(Move::X)), Some([R, B, W, G, Y, O]));
    assert_eq!(face_colours(&RubiksCube::new().moved(Move::Xs)), Some([O, B, Y, G, W, R]));
    assert_eq!(face_colours(&RubiksCube::new().moved(Move::Y)), Some([Y, O, B, R, G, W]));
    assert_eq!(face_colours(&RubiksCube::new().moved(Move::Ys)), Some([Y, R, G, O, B, W]));
    assert_eq!(face_colours(&RubiksCube::new().moved(Move::Z)), Some([G, Y, R, W, O, B]));
    assert_eq!(face_colours(&RubiksCube::new().moved(Move::Zs)), Some([B, W, R, Y, O, G]));
    for m in [Move::Front, Move::Left, Move::TopS, Move::BottomS] {
        assert_eq!(face_colours(&RubiksCube::new().moved(m)), None);
    }
}

#[test]
fn x_turns_both_faces_and_the_slice_between() {
    let mut start = RubiksCube::new();
    start.make_moves(vec![Move::Front, Move::Top, Move::RightS]);
    let mut whole = start;
    whole.x();
    let mut by_parts = start;
    by_parts.left_s();
    by_parts.pieces.rotate4(7, 19, 52, 37);
    by_parts.pieces.rotate4(4, 31, 49, 25);
    by_parts.pieces.rotate4(1, 43, 46, 13);
    by_parts.right();
    assert_eq!(whole, by_parts);
    let mut faces_only = start;
    faces_only.left_s();
    faces_only.right();
    assert_ne!(whole, faces_only);
}

#[test]
fn to_string1_after_a_turn_of_the_whole_cube() {
    let mut rc = RubiksCube::new();
    rc.x();
    let expected = [
        "      R R R\n",
        "      R R R\n",
        "      R R R\n",
        "B B B W W W G G G Y Y Y\n",
        "B B B W W W G G G Y Y Y\n",
        "B B B W W W G G G Y Y Y\n",
        "      O O O\n",
        "      O O O\n",
        "      O O O\n",
    ]
    .concat();
    assert_eq!(expected, rc.to_string1());
}

#[test]
fn a_face_turn_between_a_whole_turn_and_its_undoing_is_a_face_turn() {
    let mut start = RubiksCube::new();
    start.make_moves(vec![Move::Right, Move::Top, Move::FrontS, Move::Left, Move::Bottom]);
    let pairs = [
        (Move::X, Move::Top, Move::Front),
        (Move::X, Move::Front, Move::Bottom),
        (Move::X, Move::Right, Move::Right),
        (Move::X, Move::Left, Move::Left),
        (Move::Y, Move::Front, Move::Left),
        (Move::Y, Move::Right, Move::Front),
        (Move::Y, Move::Top, Move::Top),
        (Move::Z, Move::Top, Move::Right),
        (Move::Z, Move::Left, Move::Top),
        (Move::Z, Move::Back, Move::Back),
    ];
    for (whole, between, same_as) in pairs {
        let mut rc = start;
        rc.make_moves(vec![whole, between, whole.inverted()]);
        assert_eq!(rc, start.moved(same_as), "{whole:?} {between:?}");
    }
    let mut rc = start;
    rc.make_moves(vec![Move::X, Move::Y, Move::Xs]);
    assert_eq!(rc, start.moved(Move::Z));
}

#[test]
fn juxt_lists_the_children_in_move_order() {
    let mut start = RubiksCube::new();
    start.make_move(Move::Right);
    let kids = start.juxt();
    assert_eq!(kids.len(), 18);
    for (i, kid) in kids.iter().enumerate() {
        let mut rc = start;
        rc.make_move(ALL_MOVES[i]);
        assert_eq!(*kid, rc);
    }
    assert_eq!(kids[7], RubiksCube::new());
}

#[test]
fn make_moves_with_no_moves_changes_nothing() {
    let mut rc = RubiksCube::new();
    rc.make_moves(vec![]);
    assert_eq!(rc, RubiksCube::new());
}

#[test]
fn compare_agrees_with_the_derived_order() {
    let mut cubes = vec![RubiksCube::new()];
    for m in ALL_MOVES {
        cubes.push(RubiksCube::new().moved(m));
        cubes.push(RubiksCube::new().moved(m).moved(Move::Top));
    }
    for a in &cubes {
        for b in &cubes {
            let expected = match a.cmp(b) {
                std::cmp::Ordering::Less => Comparison::Less,
                std::cmp::Ordering::Equal => Comparison::Equal,
                std::cmp::Ordering::Greater => Comparison::Greater,
            };
            assert_eq!(a.compare(b), expected);
        }
    }
}
