//! Platform-facing pieces that carry logic: the inbox through which a
//! picked maze file reaches the application.

pub mod fileio;

pub use fileio::FileInbox;
