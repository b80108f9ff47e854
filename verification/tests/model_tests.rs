use ahash::AHashMap;
use bibtex_parser::error::{Location, ParseContext};
use bibtex_parser::text::{eq_ignore_ascii_case, render_number, render_size};
use bibtex_parser::{Database, DatabaseBuilder, Entry, EntryType, Error, Field, Value};
use std::borrow::Cow;

fn lit(text: &str) -> Value<'_> {
    Value::Literal(Cow::Borrowed(text))
}

fn var(name: &str) -> Value<'_> {
    Value::Variable(Cow::Borrowed(name))
}

fn sample<'a>() -> Entry<'a> {
    let mut entry = Entry::new(EntryType::Article, "key");
    entry.add_field(Field::new("Author", lit("A. Author")));
    entry.add_field(Field::new("year", Value::Number(-1999)));
    entry.add_field(Field::new("journal", var("jrnl")));
    entry.add_field(Field::new(
        "note",
        Value::Concat(Box::new(vec![
            lit("a"),
            Value::Number(1),
            var("v"),
            Value::Concat(Box::new(vec![lit("x"), var("y")])),
        ])),
    ));
    entry.add_field(Field::new("author", lit("second author")));
    entry
}

#[test]
fn field_lookup_ignores_case_and_takes_the_first() {
    let entry = sample();
    assert_eq!(entry.get("author"), Some("A. Author"));
    assert_eq!(entry.get("AUTHOR"), Some("A. Author"));
    assert_eq!(entry.get("AuThOr"), Some("A. Author"));
    assert_eq!(entry.get("Year"), None);
    assert_eq!(entry.get("journal"), None);
    assert_eq!(entry.get("missing"), None);
    assert_eq!(entry.fields().len(), 5);
    assert_eq!(entry.key(), "key");
    assert_eq!(entry.entry_type(), &EntryType::Article);
}

#[test]
fn get_as_string_renders_every_kind_of_value() {
    let entry = sample();
    assert_eq!(entry.get_as_string("AUTHOR").unwrap(), "A. Author");
    assert_eq!(entry.get_as_string("year").unwrap(), "-1999");
    assert_eq!(entry.get_as_string("journal").unwrap(), "{jrnl}");
    assert_eq!(entry.get_as_string("note").unwrap(), "a1{v}x # {y}");
    assert_eq!(entry.get_as_string("missing"), None);
}

#[test]
fn validity_asks_for_the_required_fields_only() {
    let mut entry = Entry::new(EntryType::Article, "k");
    assert!(!entry.is_valid());
    for name in ["author", "TITLE", "Journal"] {
        entry.add_field(Field::new(name, lit("x")));
    }
    assert!(!entry.is_valid());
    entry.add_field(Field::new("year", Value::Number(2000)));
    assert!(entry.is_valid());
    assert!(Entry::new(EntryType::Misc, "k").is_valid());
    assert!(Entry::new(EntryType::Custom(Cow::Borrowed("x")), "k").is_valid());
    assert!(!Entry::new(EntryType::Proceedings, "k").is_valid());
}

#[test]
fn entry_types_parse_print_and_require() {
    let names = [
        ("article", EntryType::Article, 4),
        ("book", EntryType::Book, 4),
        ("inbook", EntryType::InBook, 5),
        ("inproceedings", EntryType::InProceedings, 4),
        ("proceedings", EntryType::Proceedings, 2),
        ("mastersthesis", EntryType::MastersThesis, 4),
        ("phdthesis", EntryType::PhdThesis, 4),
        ("techreport", EntryType::TechReport, 4),
        ("unpublished", EntryType::Unpublished, 3),
        ("misc", EntryType::Misc, 0),
    ];
    for (name, ty, required) in names {
        assert_eq!(EntryType::parse(name), ty);
        assert_eq!(EntryType::parse(&name.to_uppercase()), ty);
        assert_eq!(ty.to_string(), name);
        assert_eq!(ty.required_fields().len(), required);
    }
    assert_eq!(EntryType::parse("Conference"), EntryType::InProceedings);
    assert_eq!(
        EntryType::parse("DataSet"),
        EntryType::Custom(Cow::Borrowed("DataSet"))
    );
    assert_eq!(EntryType::parse("DataSet").to_string(), "DataSet");
    assert_eq!(
        EntryType::InBook.required_fields(),
        vec!["author", "title", "chapter", "publisher", "year"]
    );
    assert_eq!(EntryType::Unpublished.required_fields(), vec!["author", "title", "note"]);
    assert_eq!(EntryType::Proceedings.required_fields(), vec!["title", "year"]);
    assert_eq!(EntryType::PhdThesis.required_fields()[2], "school");
    assert_eq!(EntryType::TechReport.required_fields()[2], "institution");
    assert_eq!(EntryType::InProceedings.required_fields()[2], "booktitle");
    assert_eq!(EntryType::Book.required_fields()[2], "publisher");
    assert_eq!(EntryType::Article.required_fields()[2], "journal");
}

#[test]
fn values_print_as_in_a_file() {
    assert_eq!(lit("text").to_string(), "text");
    assert_eq!(Value::Number(0).to_string(), "0");
    assert_eq!(Value::Number(i64::MIN).to_string(), "-9223372036854775808");
    assert_eq!(var("v").to_string(), "{v}");
    let nested = Value::Concat(Box::new(vec![
        lit("a"),
        Value::Concat(Box::new(vec![var("b"), Value::Number(7)])),
        lit("c"),
    ]));
    assert_eq!(nested.to_string(), "a # {b} # 7 # c");
    assert_eq!(Value::Concat(Box::new(vec![])).to_string(), "");
    assert_eq!(Value::default(), Value::Number(0));
    assert_eq!(lit("s").as_str(), Some("s"));
    assert_eq!(Value::Number(1).as_str(), None);
    assert_eq!(var("s").as_str(), None);
}

#[test]
fn expand_replaces_variables_by_their_macros() {
    let mut strings: AHashMap<&str, Value> = AHashMap::new();
    strings.insert("a", lit("A"));
    strings.insert("b", Value::Concat(Box::new(vec![var("a"), Value::Number(2)])));
    strings.insert("loop", var("loop"));
    let value = Value::Concat(Box::new(vec![var("b"), lit("-"), var("none"), var("a")]));
    assert_eq!(value.expand(&strings), "A2-{undefined:none}A");
    assert_eq!(var("loop").expand(&strings), "{circular:loop}");
    assert_eq!(Value::Number(-4).expand(&strings), "-4");
    assert_eq!(lit("x").expand(&AHashMap::new()), "x");
}

#[test]
fn clones_and_owned_versions_are_equal_to_the_original() {
    let entry = sample();
    assert_eq!(entry.clone(), entry);
    assert_eq!(entry.fields[3].clone(), entry.fields[3]);
    assert_eq!(entry.fields[3].value.clone(), entry.fields[3].value);
    match entry.fields[0].value.clone() {
        Value::Literal(Cow::Borrowed(text)) => assert_eq!(text, "A. Author"),
        other => panic!("the clone of a borrowed literal is {:?}", other),
    }
    let owned = entry.clone().into_owned();
    assert_eq!(owned, entry);
    assert!(matches!(owned.fields[0].name, Cow::Owned(_)));
    assert!(matches!(owned.fields[2].value, Value::Variable(Cow::Owned(_))));
    let custom = EntryType::Custom(Cow::Borrowed("x")).into_owned();
    assert_eq!(custom, EntryType::Custom(Cow::Owned("x".to_string())));
    assert!(matches!(custom, EntryType::Custom(Cow::Owned(_))));
    assert_eq!(EntryType::Book.clone().into_owned(), EntryType::Book);
    let field = Field::new("n", lit("v")).into_owned();
    assert_eq!(field, Field::new("n", lit("v")));
    assert!(matches!(field.value, Value::Literal(Cow::Owned(_))));
}

#[test]
fn every_error_has_its_message() {
    let cases = vec![
        (
            Error::ParseError {
                line: 12,
                column: 3,
                message: "boom".to_string(),
                snippet: None,
            },
            "Parse error at line 12, column 3: boom",
        ),
        (
            Error::UndefinedVariable("v".to_string()),
            "Undefined string variable 'v'",
        ),
        (
            Error::CircularReference("a".to_string()),
            "Circular reference detected in string variables: a",
        ),
        (
            Error::InvalidEntryType("t".to_string()),
            "Invalid entry type 't'",
        ),
        (
            Error::MissingRequiredField {
                entry_type: "article".to_string(),
                field: "year".to_string(),
            },
            "Missing required field 'year' in article entry",
        ),
        (Error::DuplicateKey("k".to_string()), "Duplicate entry key 'k'"),
        (
            Error::InvalidFieldName("f".to_string()),
            "Invalid field name 'f'",
        ),
        (Error::WinnowError("w".to_string()), "Parse error: w"),
    ];
    for (error, text) in cases {
        assert_eq!(error.to_string(), text);
    }
    let io = std::io::Error::new(std::io::ErrorKind::NotFound, "no such file");
    assert_eq!(Error::from(io).to_string(), "IO error: no such file");
}

#[test]
fn locations_and_contexts_track_lines_and_columns() {
    assert_eq!(Location { line: 3, column: 14 }.to_string(), "3:14");
    let mut context = ParseContext::new("ab\ncdé\n");
    assert_eq!((context.line, context.column), (1, 1));
    assert_eq!(context.input, "ab\ncdé\n");
    context.advance("ab");
    assert_eq!((context.line, context.column), (1, 3));
    context.advance("\ncdé");
    assert_eq!((context.line, context.column), (2, 4));
    context.advance("\n");
    assert_eq!((context.line, context.column), (3, 1));
    context.advance("");
    assert_eq!((context.line, context.column), (3, 1));
    assert_eq!(context.clone().line, 3);
}

#[test]
fn context_snippets_mark_the_position() {
    let context = ParseContext::new("0123456789");
    assert_eq!(context.snippet(5, 2), "3456\n  ^");
    assert_eq!(context.snippet(1, 3), "0123\n ^");
    assert_eq!(context.snippet(9, 4), "56789\n    ^");
    assert_eq!(context.snippet(0, 0), "\n^");
}

#[test]
fn text_helpers_compare_and_render() {
    assert!(eq_ignore_ascii_case("ArTiClE", "article"));
    assert!(eq_ignore_ascii_case("", ""));
    assert!(!eq_ignore_ascii_case("article", "articles"));
    assert!(!eq_ignore_ascii_case("ä", "Ä"));
    assert!(!eq_ignore_ascii_case("[", "{"));
    assert!(!eq_ignore_ascii_case("@", "`"));
    assert_eq!(render_number(0), "0");
    assert_eq!(render_number(-10), "-10");
    assert_eq!(render_number(i64::MAX), "9223372036854775807");
    assert_eq!(render_number(i64::MIN), "-9223372036854775808");
    assert_eq!(render_size(1905), "1905");
    assert_eq!(render_size(usize::MAX), usize::MAX.to_string());
}

#[test]
fn queries_select_in_order() {
    let input = "@article{a, author = \"X\", n = 12}\n@book{b, author = \"Y\" # \"X\"}\n@ARTICLE{a, note = {dup}}\n@custom{c, n = 312}";
    let db = Database::parse(input).unwrap();
    let first = db.find_by_key("a").unwrap();
    assert_eq!(first.fields[0].name, "author");
    assert!(db.find_by_key("A").is_none());
    assert!(db.find_by_key("").is_none());
    let articles = db.find_by_type("Article");
    assert_eq!(articles.len(), 2);
    assert_eq!(articles[1].fields[0].name, "note");
    assert_eq!(db.find_by_type("CUSTOM").len(), 1);
    assert_eq!(db.find_by_type("art").len(), 0);
    let hits = db.find_by_field("AUTHOR", "X");
    assert_eq!(hits.len(), 2);
    assert_eq!(hits[1].key(), "b");
    assert_eq!(db.find_by_field("author", "x").len(), 0);
    assert_eq!(db.find_by_field("n", "12").len(), 2);
    assert_eq!(db.find_by_field("n", "").len(), 2);
    assert_eq!(db.find_by_field("n", "3123").len(), 0);
    assert_eq!(db.find_by_field("none", "").len(), 0);
}

#[test]
fn stats_count_entries_by_type_name() {
    let db = Database::parse("@Article{a,}@article{b,}@Thing{c,}@thing{d,}@string{s = 1}@string{t = 2}").unwrap();
    let stats = db.stats();
    assert_eq!(stats.total_entries, 4);
    assert_eq!(stats.total_strings, 2);
    assert_eq!(stats.total_preambles, 0);
    assert_eq!(stats.total_comments, 0);
    assert_eq!(stats.entries_by_type.len(), 3);
    assert_eq!(stats.entries_by_type.get("article"), Some(&2));
    assert_eq!(stats.entries_by_type.get("Thing"), Some(&1));
    assert_eq!(stats.entries_by_type.get("thing"), Some(&1));
}

#[test]
fn the_builder_adds_in_order() {
    let db = DatabaseBuilder::new()
        .comment("first")
        .preamble(lit("p"))
        .string("s", lit("one"))
        .string("s", lit("two"))
        .entry(Entry::new(EntryType::Misc, "a"))
        .entry(Entry::new(EntryType::Misc, "b"))
        .comment("second")
        .build();
    assert_eq!(db.entries().len(), 2);
    assert_eq!(db.entries()[1].key(), "b");
    assert_eq!(db.strings().get("s"), Some(&lit("two")));
    assert_eq!(db.preambles(), &[lit("p")]);
    assert_eq!(db.comments(), &[Cow::Borrowed("first"), Cow::Borrowed("second")]);
}
