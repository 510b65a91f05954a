//! Byte-pair encoding: learning an ordered table of merge rules from a corpus
//! and applying such a table to tokenize bytes.

pub mod counts;
pub mod encode;
pub mod select;
pub mod table;
pub mod train;
pub mod word;
