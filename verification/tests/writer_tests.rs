use bibtex_parser::model::{EntryType, Field};
use bibtex_parser::{Entry, Value, Writer};
use std::borrow::Cow;

#[test]
fn test_write_entry() {
    let entry = Entry {
        ty: EntryType::Article,
        key: Cow::Borrowed("test2023"),
        fields: vec![
            Field::new("author", Value::Literal(Cow::Borrowed("John Doe"))),
            Field::new("title", Value::Literal(Cow::Borrowed("Test Article"))),
            Field::new("year", Value::Number(2023)),
        ],
    };

    let mut writer = Writer::new(String::new());
    writer.write_entry(&entry);

    let result = writer.finish();
    assert!(result.contains("@article{test2023,"));
    assert!(result.contains("author = {John Doe}"));
    assert!(result.contains("title = {Test Article}"));
    assert!(result.contains("year = 2023"));
}

use bibtex_parser::writer::{escape_quotes, needs_quoting, order_by, text_le, WriterConfig};
use bibtex_parser::Database;

fn config(indent: &str, align: bool, sort_entries: bool, sort_fields: bool) -> WriterConfig {
    WriterConfig {
        indent: indent.to_string(),
        align_values: align,
        max_line_length: 80,
        sort_entries,
        sort_fields,
    }
}

#[test]
fn an_entry_is_written_line_by_line() {
    let entry = Entry {
        ty: EntryType::Custom(Cow::Borrowed("Data")),
        key: Cow::Borrowed("k"),
        fields: vec![
            Field::new("title", Value::Literal(Cow::Borrowed("a, b"))),
            Field::new("n", Value::Number(-5)),
            Field::new("ref", Value::Variable(Cow::Borrowed("v"))),
        ],
    };
    let mut writer = Writer::new(String::from("% head\n"));
    writer.write_entry(&entry);
    assert_eq!(
        writer.finish(),
        "% head\n@Data{k,\n  title = \"a, b\",\n  n = -5,\n  ref = v\n}\n"
    );

    let mut writer = Writer::new(String::new());
    writer.write_entry(&Entry::new(EntryType::Misc, "empty"));
    assert_eq!(writer.finish(), "@misc{empty,\n}\n");
}

#[test]
fn fields_can_be_aligned_and_sorted() {
    let entry = Entry {
        ty: EntryType::Book,
        key: Cow::Borrowed("k"),
        fields: vec![
            Field::new("year", Value::Number(1)),
            Field::new("author", Value::Literal(Cow::Borrowed("A"))),
            Field::new("b", Value::Number(2)),
            Field::new("author", Value::Literal(Cow::Borrowed("B"))),
            Field::new("Zed", Value::Number(3)),
        ],
    };
    let mut writer = Writer::with_config(String::new(), config("\t", true, false, true));
    writer.write_entry(&entry);
    assert_eq!(
        writer.finish(),
        "@book{k,\n\tZed    = 3,\n\tauthor = {A},\n\tauthor = {B},\n\tb      = 2,\n\tyear   = 1\n}\n"
    );

    let mut writer = Writer::with_config(String::new(), config("", true, false, false));
    writer.write_entry(&entry);
    assert_eq!(
        writer.finish(),
        "@book{k,\nyear   = 1,\nauthor = {A},\nb      = 2,\nauthor = {B},\nZed    = 3\n}\n"
    );
}

#[test]
fn values_are_quoted_when_braces_would_not_do() {
    let cases = vec![
        (Value::Literal(Cow::Borrowed("plain")), "{plain}"),
        (Value::Literal(Cow::Borrowed("")), "{}"),
        (Value::Literal(Cow::Borrowed("a=b")), "\"a=b\""),
        (Value::Literal(Cow::Borrowed("{x}")), "\"{x}\""),
        (Value::Literal(Cow::Borrowed("say \"hi\", ok")), "\"say \\\"hi\\\", ok\""),
        (Value::Literal(Cow::Borrowed("say \"hi\"")), "{say \"hi\"}"),
        (Value::Number(42), "42"),
        (Value::Variable(Cow::Borrowed("name")), "name"),
        (
            Value::Concat(Box::new(vec![
                Value::Variable(Cow::Borrowed("a")),
                Value::Literal(Cow::Borrowed(", ")),
                Value::Number(1),
            ])),
            "a # \", \" # 1",
        ),
    ];
    for (value, text) in cases {
        let mut writer = Writer::new(String::new());
        writer.write_value(&value);
        assert_eq!(writer.finish(), text);
    }
    assert!(needs_quoting("a{b"));
    assert!(needs_quoting("}"));
    assert!(needs_quoting("a,"));
    assert!(needs_quoting("="));
    assert!(!needs_quoting("a \"quoted\" word"));
    assert!(!needs_quoting(""));
    assert_eq!(escape_quotes("\"a\" \"\""), "\\\"a\\\" \\\"\\\"");
    assert_eq!(escape_quotes("é"), "é");
}

#[test]
fn strings_and_preambles_are_written_with_their_keyword() {
    let mut writer = Writer::new(String::new());
    writer.write_string("me", &Value::Literal(Cow::Borrowed("J")));
    writer.write_preamble(&Value::Literal(Cow::Borrowed("a,b")));
    assert_eq!(writer.finish(), "@string{me = {J}}\n@preamble{\"a,b\"}\n");
}

#[test]
fn a_database_is_written_preambles_macros_entries() {
    let input = "@misc{b, n = 1}\n@string{s = \"v\"}\n@preamble{\"p\"}\n@misc{a, n = s}";
    let db = Database::parse(input).unwrap();
    assert_eq!(
        bibtex_parser::to_string(&db).unwrap(),
        "@preamble{{p}}\n\n@string{s = {v}}\n\n@misc{b,\n  n = 1\n}\n\n@misc{a,\n  n = {v}\n}\n"
    );
    let mut writer = Writer::with_config(String::new(), config(" ", false, true, false));
    writer.write_database(&db);
    assert_eq!(
        writer.finish(),
        "@preamble{{p}}\n\n@string{s = {v}}\n\n@misc{a,\n n = {v}\n}\n\n@misc{b,\n n = 1\n}\n"
    );
    assert_eq!(bibtex_parser::to_string(&Database::new()).unwrap(), "");
}

#[test]
fn sorted_macros_are_written_in_the_order_of_their_names() {
    let db = Database::parse("@string{b = 2}@string{c = 3}@string{a = 1}@string{B = 0}").unwrap();
    let mut writer = Writer::with_config(String::new(), config("", false, true, false));
    writer.write_database(&db);
    assert_eq!(
        writer.finish(),
        "@string{B = 0}\n\n@string{a = 1}\n\n@string{b = 2}\n\n@string{c = 3}\n\n"
    );
}

#[test]
fn round_trip_keeps_entries_and_resolved_values() {
    let input = "@string{j = \"Journal, The\"}\n@article{k1, author = \"A {B} C\", journal = j, year = 1999, note = \"x\" # j}\n@book{k2, title = {With \"quotes\"}, pages = {1--2}}";
    let first = Database::parse(input).unwrap();
    let text = bibtex_parser::to_string(&first).unwrap();
    let second = Database::parse(&text).unwrap();
    assert_eq!(first.entries().len(), second.entries().len());
    for (a, b) in first.entries().iter().zip(second.entries()) {
        assert_eq!(a.key(), b.key());
        assert_eq!(a.entry_type(), b.entry_type());
        assert_eq!(a.fields.len(), b.fields.len());
        for (f, g) in a.fields.iter().zip(&b.fields) {
            assert_eq!(f.name, g.name);
            assert_eq!(f.value.to_string(), g.value.to_string());
        }
    }
}

#[test]
fn ordering_is_stable_and_bytewise() {
    assert!(text_le("", ""));
    assert!(text_le("", "a"));
    assert!(!text_le("a", ""));
    assert!(text_le("a", "a"));
    assert!(text_le("a", "ab"));
    assert!(!text_le("ab", "a"));
    assert!(text_le("B", "a"));
    assert!(!text_le("a", "B"));
    assert!(text_le("z", "é"));
    let keys = vec!["b", "a", "c", "a", "", "b"];
    assert_eq!(order_by(&keys, true), vec![4, 1, 3, 0, 5, 2]);
    assert_eq!(order_by(&keys, false), vec![0, 1, 2, 3, 4, 5]);
    assert_eq!(order_by(&Vec::new(), true), Vec::<usize>::new());
}

#[test]
fn the_default_configuration() {
    let config = WriterConfig::default();
    assert_eq!(config.indent, "  ");
    assert!(!config.align_values);
    assert_eq!(config.max_line_length, 80);
    assert!(!config.sort_entries);
    assert!(!config.sort_fields);
    assert_eq!(config.clone().indent, "  ");
}
