//! Queries over a decrypted chat database: contact names, sessions, message
//! history and message search.
//!
//! The crate holds what the queries decide and compute. Reading the databases
//! is left to the caller, who hands the rows in as plain values.

pub mod clock;
pub mod codec;
pub mod contacts;
pub mod content;
pub mod digits;
pub mod history;
pub mod messages;
pub mod name_map;
pub mod names;
pub mod pages;
pub mod rows;
pub mod search;
pub mod sessions;
pub mod sort;
pub mod sql;
pub mod tables;
pub mod targets;
pub mod text;
pub mod words;
