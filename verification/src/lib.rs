//! A streaming log slicer for text and JSON logs.
//!
//! Lines are read into records, a filter decides which records match, and an
//! emit plan says how a matching record is written. The engine takes the
//! lines one at a time, keeps the counters, and applies the head and tail
//! limits. Reading files and writing streams is left to the caller.

pub mod cli;
pub mod engine;
pub mod json;
pub mod output;
pub mod pattern;
pub mod text;
pub mod timestamp;
