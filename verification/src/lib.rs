//! A time-series persistence layer for polled device observations.
//!
//! Each observed `(charge point, property)` pair — a [`records::Table`] —
//! owns one append-only, line-oriented log file. The [`database::Database`]
//! decides what is written: it suppresses records equal to the last one
//! written, recovers that "last record" from an existing log on the first
//! touch of a table, and emits the exact bytes (header line, data rows) that
//! the caller must append to the log file. The caller performs the file I/O
//! itself and feeds file contents back in as plain lines.

pub mod codec;
pub mod database;
pub mod laws;
pub mod records;
