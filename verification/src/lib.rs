//! A BibTeX parser: entries, string macros, preambles and comments, parsed
//! from UTF-8 text into a queryable database, with every function verified.
//!
//! ```text
//! let db = bibtex_parser::parse("@article{k, title = \"T\", year = 2020}")?;
//! assert_eq!(db.entries()[0].get("title"), Some("T"));
//! ```

pub mod database;
pub mod error;
pub mod fixtures;
pub mod ingest;
pub mod laws;
pub mod model;
pub mod parser;
pub mod prelude;
pub mod resolve;
pub mod table;
pub mod text;
pub mod writer;

pub use database::{Database, DatabaseBuilder};
pub use error::{Error, Result};
pub use model::{Entry, EntryType, Field, Value};
pub use writer::{to_string, Writer};

use vstd::prelude::*;
use vstd::string::*;
use database::{entries_in, literals_borrowed, parsed};
use parser::items_at;

verus! {

/// Parse a BibTeX database from a string.
pub fn parse<'a>(input: &'a str) -> (r: Result<Database<'a>>)
    ensures
        parsed(r, input.spec_bytes()),
        r matches Ok(db) ==> items_at(input.spec_bytes(), 0) matches Ok(items)
            && literals_borrowed(entries_in(items, items.len()), db.entries@),
{
    Database::parse(input)
}

} // verus!
