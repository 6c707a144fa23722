//! Verified core of a read-only text and Git reader: path rules, text
//! decoding and paging, and Git object, index and history formats.
pub mod bytes;
pub mod config;
pub mod error;
pub mod fs;
pub mod inventory;
pub mod git;
pub mod guard;
pub mod json;
pub mod matching;
pub mod output;
pub mod text;
pub mod tools;
