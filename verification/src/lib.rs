//! Core of a line-oriented terminal text editor.
//!
//! The buffer stores a document as lines of Unicode scalar values, so every
//! position is a character index and no operation can ever split a character.
//! A primary cursor is always present; an optional secondary cursor can be
//! toggled on, moved independently, and mirrored on single-character inserts.
//! Every mutation keeps both cursors at valid, in-bounds positions.

pub mod args;
pub mod buffer;
pub mod direction;
pub mod text;
pub mod version;

pub use buffer::Position;
pub use buffer::TextBuffer;
pub use direction::Direction;
