//! Editor state, its undo history, and what the settings and overlays show.

pub mod dwell;
pub mod overlay;
pub mod state;
pub mod undo;

pub use state::MazeApp;
pub use undo::UndoStack;
