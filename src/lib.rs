//! Parsing and normalisation of chat logs kept as `<channel>@<server>/<YYYY-MM-DD>.log`.
//!
//! `clock` reads the dates and times of the logs, `line` holds the grammar of one
//! log line, `catalog` is the normalised store of servers, channels, users and
//! entries, and `resolve` decides what to do with the outcome of an insert into a
//! table whose names are unique.

pub mod catalog;
pub mod clock;
pub mod line;
pub mod resolve;
