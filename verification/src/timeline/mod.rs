//! Time stamps, value histories and command timelines.

pub mod clock;
pub mod command;
pub mod history;
pub mod time;
