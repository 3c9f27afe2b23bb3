//! A verified core for a personal activity log.
//!
//! Entries (a timestamp, a free-text description, a set of named tags and an
//! optional multi-line note) are grouped into named sections.  The library
//! holds the text-format parser and serializer that map the log file to and
//! from the in-memory model, and the filter engine that selects entries by
//! time, text search and tag queries.  File and terminal I/O, command-line
//! decoding and natural-language date parsing are left to the callers.

pub mod chars;
pub mod container;
pub mod display;
pub mod filtering;
pub mod ids;
pub mod lines;
pub mod model;
pub mod ops;
pub mod options;
pub mod parser;
pub mod roundtrip;
pub mod section;
pub mod serializer;
pub mod subparse;
pub mod tags;
pub mod textmatch;
pub mod time;
pub mod timetext;
