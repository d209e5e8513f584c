//! The logic of a terminal system monitor for Linux: reading what the kernel and
//! a few tools print, keeping the state between two refreshes, and composing the
//! text of the panels.

pub mod number;
pub mod text;
pub mod double;
pub mod units;
pub mod span;
pub mod error;
pub mod procfs;
pub mod process;
pub mod memory;
pub mod gpu;
pub mod ranking;
pub mod state;
pub mod panels;
pub mod clock;
pub mod screen;
pub mod run;
