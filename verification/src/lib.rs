//! Logic core of a grid-based mine-detection puzzle game.
//!
//! A [`Board`](board::Board) owns a rectangular grid of fields, each holding
//! a content (`BombField` or `SafeField(n)`, where `n` counts the bombs among
//! the up-to-8 neighbors) and a visibility state (`Hidden`, `Visible` or
//! `Flagged`). The board is created in one shot with randomized bomb
//! placement, then mutated in place by per-field reveal and flag operations;
//! revealing a zero-count field cascades over the connected zero region.

pub mod field;
pub mod grid;
pub mod cascade;
pub mod board;

pub use board::Board;
pub use board::BoardError;
pub use field::Field;
pub use field::FieldType;
pub use field::Position;
pub use field::Visibility;
