use bibtex_parser::parser::lexer::{field_name, skip_whitespace};
use bibtex_parser::parser::utils::{balanced_delimited, tag_no_case, ws};
use bibtex_parser::parser::value::normalize_value;

#[test]
fn test_tag_no_case() {
    let mut input = "ARTICLE{...}";
    let result = tag_no_case("article", &mut input).unwrap();
    assert_eq!(result, "ARTICLE");
    assert_eq!(input, "{...}");

    let mut input = "Article{...}";
    let result = tag_no_case("article", &mut input).unwrap();
    assert_eq!(result, "Article");
    assert_eq!(input, "{...}");
}

#[test]
fn tag_no_case_rejects_other_words_and_short_input() {
    let mut input = "artisan{...}";
    assert_eq!(tag_no_case("article", &mut input), None);
    assert_eq!(input, "artisan{...}");

    let mut input = "art";
    assert_eq!(tag_no_case("article", &mut input), None);
    assert_eq!(input, "art");
}

#[test]
fn tag_no_case_ignores_only_ascii_case() {
    let mut input = "straße";
    assert_eq!(tag_no_case("STRAße", &mut input), Some("straße"));
    let mut input = "É";
    assert_eq!(tag_no_case("é", &mut input), None);
}

#[test]
fn balanced_delimited_takes_the_matching_span() {
    let mut input = "(a (b) c) rest";
    assert_eq!(balanced_delimited(b'(', b')', &mut input), Some("a (b) c"));
    assert_eq!(input, " rest");

    let mut input = "[] tail";
    assert_eq!(balanced_delimited(b'[', b']', &mut input), Some(""));
    assert_eq!(input, " tail");
}

#[test]
fn balanced_delimited_fails_without_consuming() {
    let mut input = "(never closed";
    assert_eq!(balanced_delimited(b'(', b')', &mut input), None);
    assert_eq!(input, "(never closed");

    let mut input = "x(y)";
    assert_eq!(balanced_delimited(b'(', b')', &mut input), None);
    assert_eq!(input, "x(y)");

    let mut input = "|same|";
    assert_eq!(balanced_delimited(b'|', b'|', &mut input), None);

    let mut input = "";
    assert_eq!(balanced_delimited(b'(', b')', &mut input), None);
}

#[test]
fn balanced_delimited_does_not_treat_backslash_as_escape() {
    let mut input = r"(a\) b)";
    assert_eq!(balanced_delimited(b'(', b')', &mut input), Some(r"a\"));
    assert_eq!(input, " b)");
}

#[test]
fn normalize_value_squeezes_white_space() {
    assert_eq!(normalize_value("  hello   world \n again\t"), "hello world again");
    assert_eq!(normalize_value(""), "");
    assert_eq!(normalize_value("   "), "");
    assert_eq!(normalize_value("one"), "one");
    assert_eq!(normalize_value("a\u{a0}b"), "a b");
}

#[test]
fn skip_whitespace_stops_at_the_first_other_byte() {
    let mut input = " \t\r\n x ";
    skip_whitespace(&mut input);
    assert_eq!(input, "x ");

    let mut input = "\u{a0}x";
    skip_whitespace(&mut input);
    assert_eq!(input, "\u{a0}x");

    let mut input = "";
    skip_whitespace(&mut input);
    assert_eq!(input, "");
}

#[test]
fn field_name_is_an_identifier() {
    let mut input = "book-title = x";
    assert_eq!(field_name(&mut input), Some("book-title"));
    assert_eq!(input, " = x");

    let mut input = "= x";
    assert_eq!(field_name(&mut input), None);
    assert_eq!(input, "= x");
}

fn hello(input: &str, pos: usize) -> Option<(&str, usize)> {
    if input[pos..].starts_with("hello") {
        Some((&input[pos..pos + 5], pos + 5))
    } else {
        None
    }
}

#[test]
fn test_ws() {
    let input = "  hello  world  ";
    let (result, end) = ws(hello, input, 0).unwrap();
    assert_eq!(result, "hello");
    assert_eq!(&input[end..], "world  ");
}

#[test]
fn ws_fails_when_its_parser_fails() {
    assert_eq!(ws(hello, "  world", 0), None);
    assert_eq!(ws(hello, "", 0), None);
    assert_eq!(ws(hello, "hello", 0), Some(("hello", 5)));
    assert_eq!(ws(hello, "a \n hello\t\r\n", 1), Some(("hello", 12)));
}
