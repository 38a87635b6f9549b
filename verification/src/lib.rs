//! Cutting the silent stretches out of a recording.
//!
//! The library holds the decisions of the tool: how the detector's report is
//! read, which stretches of the recording are kept, how times and file names
//! are written, which command lines are issued and in what order, and which
//! files are removed at the end. Running the media tool and touching the file
//! system are left to the caller.
//!
//! Every time in this library is a whole number of microseconds.

pub mod cli;
pub mod decimal;
pub mod ffmpeg;
pub mod matcher;
pub mod names;
pub mod segments;
pub mod text;
pub mod utils;
