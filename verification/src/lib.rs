//! A verified codec library for financial transaction records.
//!
//! One in-memory transaction model is converted to and from three on-wire
//! encodings: a fixed-layout big-endian binary format, a quoted and escaped
//! CSV format, and a comment-tolerant line-oriented `key: value` text
//! format. All parsing and printing works over in-memory byte vectors;
//! callers own the surrounding I/O.
#![verifier::loop_isolation(false)]

pub mod bin_format;
pub mod compare;
pub mod converter;
pub mod csv_format;
pub mod error;
pub mod fields;
pub mod numbers;
pub mod text_format;
pub mod transaction;
pub mod tx_format;
pub mod utils;
