//! A hex and binary dump that reads its source in bounded chunks and
//! highlights the bytes that a pattern matches.
//!
//! The library performs no input or output. The chunk source plans which
//! window of the byte source to fetch next, the caller fetches it, and the
//! renderer turns the fetched bytes into the text of the rows.
//!
//! - `args`: the arguments of a run and the rules they must meet.
//! - `chunk`: the chunk source, a cursor that hands out windows of the
//!   byte source.
//! - `pattern`: the pattern matcher, which finds the matches of a compiled
//!   pattern in a chunk.
//! - `render`: the row renderer, which also plans the extended chunks.
//! - `frame`: the title above the rows and the footer below them.
//! - `numeral`: digits of numbers in a base.
//! - `text`: appending characters to a string.
//! - `colors`: the escape sequences of the tints.
//! - `error`: the faults of a configuration.

pub mod args;
pub mod chunk;
pub mod colors;
pub mod error;
pub mod frame;
pub mod numeral;
pub mod pattern;
pub mod render;
pub mod text;
