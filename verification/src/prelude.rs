//! The names that most users of the library need.

pub use crate::{Database, DatabaseBuilder, Entry, EntryType, Error, Result, Value};
