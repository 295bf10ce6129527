//! Link extraction from Web Archive (WARC) streams.
//!
//! A WARC stream is a sequence of records, each a block of header lines and
//! a body whose length one of the headers declares. This crate reads such a
//! stream, keeps the bodies of the records of type `metadata`, and selects
//! from a parsed metadata document the link URLs that hold the match token,
//! compared without regard to ASCII case.
//!
//! - [`lines`] and [`header`] read header lines and their values.
//! - [`record`] reads one record; [`scan`] reads a whole stream that is in
//!   memory; [`reader`] reads a stream whose bytes arrive piece by piece.
//! - [`wire`] says how a record is written, and proves that reading gives
//!   back what was written.
//! - [`prefilter`] decides from the raw bytes of a body whether it is worth
//!   parsing.
//! - [`links`] holds the metadata document and selects the matching URLs.
//!
//! Decompression, the parsing of JSON and the threads that do the work are
//! left to the program that uses the crate.

pub mod bytes;
pub mod error;
pub mod header;
pub mod lines;
pub mod links;
pub mod prefilter;
pub mod reader;
pub mod record;
pub mod scan;
pub mod wire;
