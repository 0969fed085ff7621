//! Bulk literal find-and-replace driven by a table of before/after pairs.
//!
//! The library holds the verified core: parsing the pairs table, applying
//! every pair to a byte buffer, and deciding where the result is written.
pub mod arguments;
pub mod parse;
pub mod replace;
pub mod search;
pub mod table;
