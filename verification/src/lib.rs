//! A plain-text journal: one file per day, tasks marked by checkbox lines.
//!
//! The crate holds the rules of the journal as verified functions on plain
//! values. Reading and writing files, asking the clock, running an editor
//! and talking to a server are left to the program that uses it.
//!
//! - [`text`] and [`content`]: characters, trimming, and the lines of a
//!   file.
//! - [`line`]: what kind of line a line is.
//! - [`date`]: calendar days and the keys and names of files.
//! - [`journal`]: files as values, and a journal as a sequence of files.
//! - [`rollover`]: moving the open tasks of past days to today.
//! - [`combined`]: putting a range of days into one buffer and splitting
//!   the buffer back into files; [`round_trip`] proves what the split
//!   gives back.
//! - [`request`]: which file is asked for by a word or a date.
//! - [`paths`]: where the files are kept.
//! - [`sync`]: which files are sent to a server and fetched from it.

pub mod combined;
pub mod content;
pub mod date;
pub mod journal;
pub mod line;
pub mod paths;
pub mod request;
pub mod rollover;
pub mod round_trip;
pub mod sync;
pub mod text;
