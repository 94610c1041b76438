//! The engine that reads database files.
//!
//! From the bytes of a file upward: `pager` hands out pages, `btree` reads
//! trees and assembles payloads, `cursor` walks a tree one entry at a time,
//! `varint` and `record` decode payloads into values, `value`, `collate` and
//! `comparator` convert and order values, `expression` evaluates expressions
//! over rows, `query` selects rows, and `schema`, `definition` and
//! `connection` find tables and indexes by name.
//! `binary64`, `natural`, `decimal` and `numeric` hold the arithmetic of real
//! numbers, which is done on bit patterns and whole numbers throughout.

pub mod binary64;
pub mod btree;
pub mod collate;
pub mod comparator;
pub mod connection;
pub mod cursor;
pub mod decimal;
pub mod definition;
pub mod error;
pub mod expression;
pub mod natural;
pub mod numeric;
pub mod pager;
pub mod parser;
pub mod query;
pub mod record;
pub mod schema;
pub mod test_utils;
pub mod value;
pub mod varint;
