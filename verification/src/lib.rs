//! A Bitcask-style key-value store: append-only segment logs, an in-memory key
//! directory that points each live key at its latest value, and the Memcached
//! text commands that drive them.
//!
//! The store holds its segment files as bytes and touches no disk. A program
//! that keeps the files reads them when it opens the store and writes out what
//! the store appends.
//!
//! - `data_file`, `hint_file`: the two logs of a segment and their records.
//! - `endian`, `checksum`: the integers and the check value of a record.
//! - `directory`: the key directory.
//! - `names`, `listing`: how segment files are named and sorted into segments.
//! - `model`, `lemmas`, `laws`: what the segments mean, and what holds of every
//!   store.
//! - `recovery`: rebuilding the directory from the logs.
//! - `engine`: the store itself.
//! - `protocol`: commands and answers.
//! - `clock`: the time that records are stamped with.

pub mod checksum;
pub mod clock;
pub mod data_file;
pub mod directory;
pub mod endian;
pub mod engine;
pub mod hint_file;
pub mod laws;
pub mod lemmas;
pub mod listing;
pub mod model;
pub mod names;
pub mod protocol;
pub mod recovery;

pub use data_file::DataEntry;
pub use data_file::DataFile;
pub use engine::Bitcask;
pub use engine::BitcaskOptions;
pub use hint_file::HintEntry;
pub use hint_file::HintFile;
