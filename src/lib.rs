//! A polling tail/follow engine: read-strategy selection, a seekable reader
//! over a file's bytes, per-file watch state and the output collector.
pub mod file;
pub mod laws;
pub mod output;
pub mod strategy;
pub mod watcher;
