//! Perfect-clear search on a bit-packed field of ten columns and six rows.
//!
//! `board`, `piece`, `sequence`, `shape`, `table` and `placement` hold the
//! data: the field, the pieces and their queue, the states that a piece can
//! take, and a state at a column. `combination` enumerates the tilings of
//! the empty cells, `placeability` judges whether a piece can reach a
//! placement, and `solve` orders a tiling against a queue and runs the whole
//! search. `settle` and `complete` prove what the enumerator does not lose;
//! `bits` holds the facts about bit sets that the proofs share, `stack` the
//! bounded stacks of the solver and `cancel` the flag that stops a search.

pub mod bits;
pub mod board;
pub mod cancel;
pub mod combination;
pub mod complete;
pub mod piece;
pub mod placeability;
pub mod placement;
pub mod sequence;
pub mod settle;
pub mod shape;
pub mod solve;
pub mod stack;
pub mod table;

pub use board::BitBoard;
pub use combination::{find_combinations, find_combinations_in, finish_branch, fork_branch, Branch, Tried};
pub use piece::{Piece, PieceSet, Rotation, SrsPiece, PIECES};
pub use placement::Placement;
pub use sequence::PieceSequence;
pub use shape::{Gaps, PieceState, Shape};
pub use solve::{
    solve_pc, solve_pc_at_height, solve_pc_at_height_in, solve_pc_in, solve_pc_prep, solve_placement_combination,
    solve_placement_combo,
};
pub use table::ShapeTable;
