use bibtex_parser::model::{EntryType, Value};
use bibtex_parser::parser::delimiter::{find_brace_delimiter, find_byte, find_delimiter};
use bibtex_parser::parser::entry::parse_entry;
use bibtex_parser::parser::lexer::{
    balanced_braces, identifier, number, quoted_string, scan_to_bibtex_delimiter,
};
use bibtex_parser::parser::value::parse_value;
use std::borrow::Cow;

#[test]
fn test_find_delimiter() {
    let input = b"hello @ world { test } = value, end";

    assert_eq!(find_delimiter(input, 0), Some((6, b'@')));
    assert_eq!(find_delimiter(input, 7), Some((14, b'{')));
    assert_eq!(find_delimiter(input, 15), Some((21, b'}')));
    assert_eq!(find_delimiter(input, 22), Some((23, b'=')));
    assert_eq!(find_delimiter(input, 24), Some((30, b',')));
    assert_eq!(find_delimiter(input, 31), None);
}

#[test]
fn test_specialized_searches() {
    let input = b"test {nested} string";

    assert_eq!(find_brace_delimiter(input, 0), Some((5, b'{')));
    assert_eq!(find_brace_delimiter(input, 6), Some((12, b'}')));
    assert_eq!(find_byte(input, b'}', 0), Some(12));
    assert_eq!(find_byte(input, b'}', 13), None);
}

#[test]
fn test_identifier() {
    let mut input = "hello-world_123:test.com xxx";
    let result = identifier(&mut input).unwrap();
    assert_eq!(result, "hello-world_123:test.com");
    assert_eq!(input, " xxx");
}

#[test]
fn test_balanced_braces() {
    let mut input = "hello {nested {braces}} world} xxx";
    let result = balanced_braces(&mut input).unwrap();
    assert_eq!(result, "hello {nested {braces}} world");
    assert_eq!(input, "} xxx");
}

#[test]
fn test_quoted_string() {
    let mut input = r#""hello \"world\"" xxx"#;
    let result = quoted_string(&mut input).unwrap();
    assert_eq!(result, r#"hello \"world\""#);
    assert_eq!(input, " xxx");

    // Test with nested braces
    let mut input = r#""hello {world}" xxx"#;
    let result = quoted_string(&mut input).unwrap();
    assert_eq!(result, "hello {world}");
}

#[test]
fn test_number() {
    let mut input = "42 xxx";
    assert_eq!(number(&mut input).unwrap(), 42);

    let mut input = "-42 xxx";
    assert_eq!(number(&mut input).unwrap(), -42);

    let mut input = "+42 xxx";
    assert_eq!(number(&mut input).unwrap(), 42);
}

#[test]
fn test_scan_to_bibtex_delimiter() {
    let input = b"hello @ world { test } = value, end";

    assert_eq!(scan_to_bibtex_delimiter(input, 0), Some((6, b'@')));
    assert_eq!(scan_to_bibtex_delimiter(input, 7), Some((14, b'{')));
    assert_eq!(scan_to_bibtex_delimiter(input, 15), Some((21, b'}')));
    assert_eq!(scan_to_bibtex_delimiter(input, 22), Some((23, b'=')));
    assert_eq!(scan_to_bibtex_delimiter(input, 24), Some((30, b',')));
    assert_eq!(scan_to_bibtex_delimiter(input, 31), None);
}

#[test]
fn test_parse_quoted_value() {
    let mut input = r#""hello world" xxx"#;
    let value = parse_value(&mut input).unwrap();
    assert_eq!(value, Value::Literal(Cow::Borrowed("hello world")));
    assert_eq!(input, " xxx");
}

#[test]
fn test_parse_braced_value() {
    let mut input = "{hello world} xxx";
    let value = parse_value(&mut input).unwrap();
    assert_eq!(value, Value::Literal(Cow::Borrowed("hello world")));
    assert_eq!(input, " xxx");
}

#[test]
fn test_parse_number_value() {
    let mut input = "2023 xxx";
    let value = parse_value(&mut input).unwrap();
    assert_eq!(value, Value::Number(2023));
    assert_eq!(input, " xxx");
}

#[test]
fn test_parse_variable_value() {
    let mut input = "myvar xxx";
    let value = parse_value(&mut input).unwrap();
    assert_eq!(value, Value::Variable(Cow::Borrowed("myvar")));
    assert_eq!(input, " xxx");
}

#[test]
fn test_parse_concatenated_value() {
    let mut input = r#""hello" # myvar # {world} xxx"#;
    let value = parse_value(&mut input).unwrap();
    match value {
        Value::Concat(parts) => {
            assert_eq!(parts.len(), 3);
            assert_eq!(parts[0], Value::Literal(Cow::Borrowed("hello")));
            assert_eq!(parts[1], Value::Variable(Cow::Borrowed("myvar")));
            assert_eq!(parts[2], Value::Literal(Cow::Borrowed("world")));
        }
        _ => panic!("Expected concatenated value"),
    }
    assert_eq!(input, " xxx");
}

#[test]
fn test_parse_simple_entry() {
    let mut input = r#"@article{einstein1905,
            author = "Albert Einstein",
            title = {Zur Elektrodynamik bewegter Körper},
            year = 1905
        }"#;

    let entry = parse_entry(&mut input).unwrap();
    assert_eq!(entry.ty, EntryType::Article);
    assert_eq!(entry.key, "einstein1905");
    assert_eq!(entry.fields.len(), 3);

    assert_eq!(entry.fields[0].name, "author");
    assert_eq!(
        entry.fields[0].value,
        Value::Literal(Cow::Borrowed("Albert Einstein"))
    );

    assert_eq!(entry.fields[1].name, "title");
    assert_eq!(
        entry.fields[1].value,
        Value::Literal(Cow::Borrowed("Zur Elektrodynamik bewegter Körper"))
    );

    assert_eq!(entry.fields[2].name, "year");
    assert_eq!(entry.fields[2].value, Value::Number(1905));
}

#[test]
fn test_parse_entry_with_concatenation() {
    let mut input = r#"@misc{test,
            author = name # " et al.",
            note = "See " # url
        }"#;

    let entry = parse_entry(&mut input).unwrap();
    assert_eq!(entry.ty, EntryType::Misc);
    assert_eq!(entry.key, "test");
    assert_eq!(entry.fields.len(), 2);

    match &entry.fields[0].value {
        Value::Concat(parts) => {
            assert_eq!(parts.len(), 2);
            assert_eq!(parts[0], Value::Variable(Cow::Borrowed("name")));
            assert_eq!(parts[1], Value::Literal(Cow::Borrowed(" et al.")));
        }
        _ => panic!("Expected concatenated value"),
    }
}

#[test]
fn test_parse_entry_with_trailing_comma() {
    let mut input = r#"@book{knuth1984,
            author = "Donald Knuth",
            title = "The TeXbook",
            year = 1984,
        }"#;

    let entry = parse_entry(&mut input).unwrap();
    assert_eq!(entry.fields.len(), 3);
}
