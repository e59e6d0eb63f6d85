//! A personal task list kept as a small table of text.
//!
//! The crate holds the rules of the list: how a task is written as a record
//! and read back, how tasks are ordered and numbered, and how the list is
//! shown. Every function states what it computes, and the statements are
//! proved.

pub mod codec;
pub mod decimal;
pub mod entry;
pub mod layout;
pub mod log;
pub mod order;
pub mod table;

pub use crate::codec::{decode, encode, MalformedRecordError, Record};
pub use crate::entry::LogEntry;
pub use crate::log::{LoadError, Log};
