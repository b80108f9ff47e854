//! Ingestion of several files: each text is parsed into a database of its
//! own, which borrows nothing from the text, and the databases are merged
//! in the order of the files.
//!
//! The pieces are independent of each other, so a caller may parse the
//! texts on as many threads as it likes and hand the results to
//! [`Database::merge_all`].

use vstd::prelude::*;
use vstd::string::*;
use vstd::utf8::encode_utf8;
use crate::error::Error;
use crate::database::{assemble, parsed, Database, DatabaseModel, ParseOptions};
use crate::model::{entry_owned, value_owned};
use crate::parser::items_at;

verus! {

/// The databases `parts`, merged one after the other into an empty database.
pub open spec fn merged(parts: Seq<DatabaseModel>, n: nat) -> DatabaseModel
    decreases n,
{
    if n == 0 || n > parts.len() {
        DatabaseModel {
            entries: Seq::empty(),
            strings: Map::empty(),
            preambles: Seq::empty(),
            comments: Seq::empty(),
        }
    } else {
        let before = merged(parts, (n - 1) as nat);
        DatabaseModel {
            entries: before.entries + parts[n - 1].entries,
            strings: before.strings.union_prefer_right(parts[n - 1].strings),
            preambles: before.preambles + parts[n - 1].preambles,
            comments: before.comments + parts[n - 1].comments,
        }
    }
}

/// The views of a run of databases.
pub open spec fn database_views(parts: Seq<Database<'_>>) -> Seq<DatabaseModel> {
    Seq::new(parts.len(), |i: int| parts[i]@)
}

/// How many entries the first `n` databases hold together.
pub open spec fn entry_total(parts: Seq<DatabaseModel>, n: nat) -> nat
    decreases n,
{
    if n == 0 || n > parts.len() {
        0
    } else {
        entry_total(parts, (n - 1) as nat) + parts[n - 1].entries.len()
    }
}

/// Merging keeps every entry: the merged database has as many entries as
/// its parts have together, however the parts were produced.
pub proof fn lemma_merged_entry_count(parts: Seq<DatabaseModel>, n: nat)
    requires
        n <= parts.len(),
    ensures
        merged(parts, n).entries.len() == entry_total(parts, n),
    decreases n,
{
    if n > 0 {
        lemma_merged_entry_count(parts, (n - 1) as nat);
    }
}

impl Database<'static> {
    /// Parses one text into a database that borrows nothing from it: the
    /// unit of work of multi-file ingestion.
    pub fn parse_owned(input: &str) -> (r: std::result::Result<Database<'static>, Error>)
        ensures
            parsed(r, input.spec_bytes()),
            r matches Ok(db) ==> forall|i: int|
                0 <= i < db.entries@.len() ==> entry_owned(#[trigger] db.entries@[i]),
            r matches Ok(db) ==> forall|i: int|
                0 <= i < db.preambles@.len() ==> value_owned(#[trigger] db.preambles@[i]),
            r matches Ok(db) ==> forall|i: int|
                0 <= i < db.comments@.len() ==> (#[trigger] db.comments@[i]) is Owned,
    {
        match Database::parse(input) {
            Ok(db) => Ok(db.into_owned()),
            Err(e) => Err(e),
        }
    }

    /// Merges the databases of several files into one, in the order given.
    pub fn merge_all(parts: Vec<Database<'static>>) -> (r: Database<'static>)
        ensures
            r@ == merged(database_views(parts@), parts@.len()),
            r@.entries.len() == entry_total(database_views(parts@), parts@.len()),
    {
        let ghost models = database_views(parts@);
        let mut parts = parts;
        let mut acc = Database::new();
        let mut taken: Vec<Database<'static>> = Vec::new();
        let ghost total = parts@.len();
        // The parts are taken from the back, so they are first put in reverse.
        while parts.len() > 0
            invariant
                parts@.len() + taken@.len() == total,
                models.len() == total,
                forall|i: int| 0 <= i < parts@.len() ==> (#[trigger] parts@[i])@ == models[i],
                forall|i: int|
                    0 <= i < taken@.len() ==> (#[trigger] taken@[i])@ == models[total - 1 - i],
            decreases parts.len(),
        {
            let last = parts.pop();
            match last {
                Some(db) => {
                    taken.push(db);
                },
                None => {},
            }
        }
        let ghost mut n: nat = 0;
        assert(acc@ =~= merged(models, 0));
        while taken.len() > 0
            invariant
                n + taken@.len() == total,
                models.len() == total,
                forall|i: int|
                    0 <= i < taken@.len() ==> (#[trigger] taken@[i])@ == models[total - 1 - i],
                acc@ == merged(models, n),
            decreases taken.len(),
        {
            let next = taken.pop();
            match next {
                Some(db) => {
                    assert(db@ == models[n as int]);
                    acc.merge(db);
                    assert(acc@ =~= merged(models, n + 1));
                    proof {
                        n = n + 1;
                    }
                },
                None => {},
            }
        }
        proof {
            lemma_merged_entry_count(models, total as nat);
        }
        acc
    }
}

/// The database of one text, if the text parses and all its values resolve.
pub open spec fn file_database(b: Seq<u8>) -> Option<DatabaseModel> {
    match items_at(b, 0) {
        Ok(items) => match assemble(items) {
            Ok(model) => Some(model),
            Err(_) => None,
        },
        Err(_) => None,
    }
}

/// The first of the first `n` texts that has no database.
pub open spec fn first_failing(texts: Seq<Seq<u8>>, n: nat) -> Option<int>
    decreases n,
{
    if n == 0 || n > texts.len() {
        None
    } else {
        match first_failing(texts, (n - 1) as nat) {
            Some(i) => Some(i),
            None => if file_database(texts[n - 1]) is None {
                Some(n - 1)
            } else {
                None
            },
        }
    }
}

/// The bytes of each of the texts.
pub open spec fn content_bytes(contents: Seq<String>) -> Seq<Seq<u8>> {
    Seq::new(contents.len(), |i: int| encode_utf8(contents[i]@))
}

/// The database of each of the texts.
pub open spec fn file_databases(texts: Seq<Seq<u8>>) -> Seq<DatabaseModel> {
    Seq::new(texts.len(), |i: int| file_database(texts[i])->0)
}

impl ParseOptions {
    /// Parses the contents of several files, one after the other, and merges
    /// their databases in that order. The first file that fails fails the
    /// whole ingestion, with the error of that file; no partial database is
    /// returned.
    pub fn parse_contents(&self, contents: &Vec<String>) -> (r: std::result::Result<
        Database<'static>,
        Error,
    >)
        ensures
            match first_failing(content_bytes(contents@), contents@.len()) {
                Some(i) => r matches Err(e) && parsed(
                    Err::<Database<'static>, Error>(e),
                    content_bytes(contents@)[i],
                ),
                None => r matches Ok(db) && db@ == merged(
                    file_databases(content_bytes(contents@)),
                    contents@.len(),
                ),
            },
    {
        let ghost texts = content_bytes(contents@);
        let mut parts: Vec<Database<'static>> = Vec::new();
        let mut i: usize = 0;
        while i < contents.len()
            invariant
                i <= contents.len(),
                texts == content_bytes(contents@),
                parts@.len() == i,
                first_failing(texts, i as nat) is None,
                forall|j: int| 0 <= j < i ==> file_database(texts[j]) == Some((#[trigger] parts@[j])@),
            decreases contents.len() - i,
        {
            assert(texts[i as int] == encode_utf8(contents@[i as int]@));
            match Database::parse_owned(contents[i].as_str()) {
                Ok(db) => {
                    parts.push(db);
                },
                Err(e) => {
                    proof {
                        assert(file_database(texts[i as int]) is None);
                        assert(first_failing(texts, (i + 1) as nat) == Some(i as int));
                        lemma_first_failing(texts, (i + 1) as nat, texts.len());
                    }
                    return Err(e);
                },
            }
            i += 1;
        }
        proof {
            assert(database_views(parts@) =~= file_databases(texts));
        }
        let db = Database::merge_all(parts);
        Ok(db)
    }
}

/// Once a text fails, it stays the first failure however many texts follow.
pub proof fn lemma_first_failing(texts: Seq<Seq<u8>>, n: nat, m: nat)
    requires
        n <= m <= texts.len(),
        first_failing(texts, n) is Some,
    ensures
        first_failing(texts, m) == first_failing(texts, n),
    decreases m - n,
{
    if n < m {
        lemma_first_failing(texts, n, (m - 1) as nat);
    }
}

} // verus!
