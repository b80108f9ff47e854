use bibtex_parser::model::{EntryType, Field};
use bibtex_parser::{Database, DatabaseBuilder, Entry, Value};
use std::borrow::Cow;

#[test]
fn test_database_parse() {
    let input = r#"
            @string{me = "John Doe"}
            
            @article{test2023,
                author = me,
                title = "Test Article",
                year = 2023
            }
        "#;

    let db = Database::parse(input).unwrap();
    assert_eq!(db.entries().len(), 1);
    assert_eq!(db.strings().len(), 1);

    let entry = &db.entries()[0];
    // Use get_as_string since the value might be a variable reference
    assert_eq!(entry.get_as_string("author").unwrap(), "John Doe");
}

#[test]
fn test_zero_copy_preservation() {
    let input = r#"
            @article{test,
                title = "This is borrowed",
                year = 2023
            }
        "#;

    let db = Database::parse(input).unwrap();
    let entry = &db.entries()[0];

    // The title should still be borrowed from the input
    if let Some(Value::Literal(cow)) = entry
        .fields
        .iter()
        .find(|f| f.name == "title")
        .map(|f| &f.value)
    {
        assert!(matches!(cow, Cow::Borrowed(_)));
    }
}

#[test]
fn test_concatenation_creates_owned() {
    let input = r#"
            @string{first = "Hello"}
            @string{second = "World"}
            
            @article{test,
                title = first # ", " # second
            }
        "#;

    let db = Database::parse(input).unwrap();
    let entry = &db.entries()[0];

    // Concatenation should create an owned string
    assert_eq!(entry.get_as_string("title").unwrap(), "Hello, World");
}

#[test]
fn test_boxed_concat_memory_optimization() {
    assert!(
        std::mem::size_of::<Value>() <= 32,
        "Value enum is {} bytes, should be 32 or less",
        std::mem::size_of::<Value>()
    );
}

#[test]
fn test_vec_shrink_optimization() {
    let input = r#"
            @article{test,
                a = "1", b = "2", c = "3", d = "4", e = "5",
                f = "6", g = "7", h = "8", i = "9", j = "10"
            }
        "#;

    let db = Database::parse(input).unwrap();
    let entry = &db.entries()[0];

    // After optimization, capacity should equal length (no waste)
    assert_eq!(
        entry.fields.len(),
        entry.fields.capacity(),
        "Vec should be shrunk to exact size"
    );
}

#[test]
fn test_database_builder() {
    let db = DatabaseBuilder::new()
        .string("me", Value::Literal(Cow::Borrowed("John Doe")))
        .entry(Entry {
            ty: EntryType::Article,
            key: Cow::Borrowed("test2023"),
            fields: vec![
                Field::new("author", Value::Variable(Cow::Borrowed("me"))),
                Field::new("title", Value::Literal(Cow::Borrowed("Test"))),
            ],
        })
        .build();

    assert_eq!(db.entries().len(), 1);
    assert_eq!(db.strings().len(), 1);
}

#[test]
fn test_database_stats() {
    let input = r#"
            @string{ieee = "IEEE"}
            @preamble{"Test preamble"}
            @comment{This is a formal comment that works}
            @article{a1, title = "Article 1"}
            @article{a2, title = "Article 2"}
            @book{b1, title = "Book 1"}
        "#;

    let db = Database::parse(input).unwrap();
    let stats = db.stats();

    assert_eq!(stats.total_entries, 3);
    assert_eq!(stats.total_strings, 1);
    assert_eq!(stats.total_preambles, 1);
    assert_eq!(stats.total_comments, 1);
    assert_eq!(stats.entries_by_type.get("article"), Some(&2));
    assert_eq!(stats.entries_by_type.get("book"), Some(&1));
}

#[test]
fn test_builder_pattern_api() {
    let input = "@article{test, title = \"Test\"}";

    // Single-threaded (default)
    let db1 = Database::parse(input).unwrap();
    assert_eq!(db1.entries().len(), 1);

    // Using parser builder
    let db2 = Database::parser().threads(Some(1)).parse(input).unwrap();
    assert_eq!(db2.entries().len(), 1);

    // Thread count left to the runtime
    let db3 = Database::parser().threads(None).parse(input).unwrap();
    assert_eq!(db3.entries().len(), 1);
}

#[test]
fn databases_and_statistics_can_be_cloned() {
    let db = Database::parse("@string{s = 1}\n@misc{k, a = s}").unwrap();
    let copy = db.clone();
    assert_eq!(copy.entries(), db.entries());
    assert_eq!(copy.strings().len(), 1);
    let stats = db.stats().clone();
    assert_eq!(stats.total_entries, 1);
    assert_eq!(stats.entries_by_type.get("misc"), Some(&1));
}

#[test]
fn test_parallel_parse() {
    let input = r#"
            @string{me = "John Doe"}
            
            @article{test2023,
                author = me,
                title = "Test Article",
                year = 2023
            }
        "#;

    // Test explicit thread count
    let db = Database::parser().threads(Some(4)).parse(input).unwrap();

    assert_eq!(db.entries().len(), 1);
    assert_eq!(db.entries()[0].get_as_string("author").unwrap(), "John Doe");
}

#[test]
fn the_contents_of_two_files_are_merged() {
    let contents = vec![
        String::from("@article{a1,title=\"A\"}"),
        String::from("@article{a2,title=\"B\"}"),
    ];
    let db = Database::parser()
        .threads(Some(2))
        .parse_contents(&contents)
        .unwrap();
    assert_eq!(db.entries().len(), 2);
}
