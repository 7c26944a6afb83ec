//! The playable core of a minesweeper game: a board of hidden tiles over a
//! lazily placed mine layout, revealed one cell at a time, with flood
//! expansion across the zero-count region. Every operation is specified and
//! verified: construction, mine placement that spares the first revealed
//! cell, adjacent-mine counting, reveal, and rendering.
pub mod board;
pub mod grid;
pub mod reach;

pub use board::new;
pub use board::new_with_mines;
pub use board::Board;
pub use board::BoardImpl;
pub use board::ConstructionError;
pub use board::RevealError;
pub use board::TileState;
