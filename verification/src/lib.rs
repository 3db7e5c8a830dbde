//! Turn-based territory capture on a ten-by-ten hex board: the grid and its
//! adjacency, board generation by erosion, move enumeration and position
//! evaluation.

pub mod seq_lemmas;
pub mod random;
pub mod hexgrid;
pub mod gamemap;
pub mod reach;
pub mod snapshot;
pub mod moves;
pub mod evaluate;
pub mod boardgen;
pub mod turn;
