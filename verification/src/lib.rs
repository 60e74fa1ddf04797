//! A verified streaming decoder for the RDB snapshot format.
//!
//! The decoder walks a byte buffer sequentially, recognises the outer frame
//! (magic, version, opcodes) and the typed value payloads, and drives a
//! pluggable event sink. A pluggable predicate decides which databases, value
//! types and keys are materialised; everything else is skipped byte-exact,
//! which is proved by holding the read path and the skip path to the same
//! positions of one mathematical model of the wire format.

pub mod collect;
pub mod decimal;
pub mod emit;
pub mod error;
pub mod events;
pub mod filter;
pub mod formatter;
pub mod intset;
pub mod laws;
pub mod lzf_ext;
pub mod model;
pub mod parser;
pub mod primitives;
pub mod reader;
pub mod ziplist;
pub mod zipmap;
