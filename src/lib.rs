//! Core of a private music server: a periodically rebuilt index of the
//! playable files under a music root, and a table of authenticated sessions
//! that expire after a fixed time to live.

pub mod order;
pub mod scanner;
pub mod text;
pub mod clock;
pub mod sessions;
pub mod state;
