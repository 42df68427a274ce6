//! Verified core of a per-host logging stack: a byte-accurate sliding window
//! over rotated log files, the daemon's registration and dispatch rules, the
//! record renderer with rotation accounting, and the client sink's decisions.

pub mod dir_index;
pub mod direction;
pub mod level;
pub mod lines;
pub mod log_file;
pub mod log_message;
pub mod log_window;
pub mod registry;
pub mod rotator;
pub mod session;
pub mod sink;
pub mod timestamp;
pub mod writer;

pub use direction::ShiftDirection;
