//! Meet-in-the-middle solver for the 3x3x3 cube.
//!
//! A cube is 54 facelet colours; eighteen quarter turns permute them. To
//! carry one cube to another, `solve` grows a frontier of cubes from each
//! end, a level at a time and in turn, until the two frontiers share a
//! cube. It then solves each half in the same way and joins the two paths.
//! What it returns is a shortest sequence of turns.
//!
//! - `color`, `moves`, `rotate`, `cube`: the puzzle, with the laws of its turns.
//! - `packed`: the cube held two or three facelets to a byte, and back.
//! - `order`, `sorted_vec`, `heap`, `merge`: sets kept as sorted vectors.
//! - `frontier`, `parallel`, `expand`: one level of the search.
//! - `paths`, `search`: the search itself, and what it owes.
//! - `shuffle`, `render`, `collapse`: random turns, printing, a helper.

pub mod collapse;
pub mod color;
pub mod cube;
pub mod expand;
pub mod frontier;
pub mod heap;
pub mod merge;
pub mod moves;
pub mod order;
pub mod packed;
pub mod parallel;
pub mod paths;
pub mod render;
pub mod rotate;
pub mod search;
pub mod shuffle;
pub mod sorted_vec;

pub use collapse::ExtResultCollapse;
pub use color::Color;
pub use cube::RubiksCube;
pub use expand::{expand, FrontierBuild};
pub use moves::{Move, ALL_MOVES};
pub use order::{Comparison, TotalOrder};
pub use packed::{
    ColorPair, ColorTriple, Packing, RubiksCubeCompressedX2, RubiksCubeCompressedX3,
};
pub use rotate::ExtArrayRotate4;
pub use search::solve;
pub use sorted_vec::SortedVec;
