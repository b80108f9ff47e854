use bibtex_parser::model::{EntryType, Value};
use bibtex_parser::parser::delimiter::{
    find_bytes2, find_bytes3, find_delimiter, find_quote_delimiter,
};
use bibtex_parser::parser::entry::parse_entry;
use bibtex_parser::parser::lexer::{balanced_braces, identifier, number, quoted_string};
use bibtex_parser::parser::value::parse_value;
use bibtex_parser::parser::{calculate_position, get_snippet, parse_bibtex, ParsedItem};
use bibtex_parser::{Database, Error};
use std::borrow::Cow;

fn lit(text: &str) -> Value<'_> {
    Value::Literal(Cow::Borrowed(text))
}

#[test]
fn scanner_returns_the_earliest_of_its_set() {
    assert_eq!(find_delimiter(b"=@", 0), Some((0, b'=')));
    assert_eq!(find_delimiter(b"a,b@c", 0), Some((1, b',')));
    assert_eq!(find_delimiter(b"a@b,c", 0), Some((1, b'@')));
    assert_eq!(find_delimiter(b"abc", 0), None);
    assert_eq!(find_delimiter(b"{", 1), None);
    assert_eq!(find_delimiter(b"{", 7), None);
    assert_eq!(find_delimiter(b"", 0), None);
    assert_eq!(find_quote_delimiter(b"ab}c\"", 0), Some((2, b'}')));
    assert_eq!(find_quote_delimiter(b"ab\"c}", 0), Some((2, b'"')));
    assert_eq!(find_quote_delimiter(b"a\\{", 0), Some((1, b'\\')));
    assert_eq!(find_quote_delimiter(b"plain", 0), None);
    assert_eq!(find_bytes2(b"xxayb", b'b', b'a', 0), Some((2, b'a')));
    assert_eq!(find_bytes2(b"xxayb", b'b', b'a', 3), Some((4, b'b')));
    assert_eq!(find_bytes2(b"xxayb", b'b', b'a', 5), None);
    assert_eq!(find_bytes3(b"..c.b.a", b'a', b'b', b'c', 0), Some((2, b'c')));
    assert_eq!(find_bytes3(b"..c.b.a", b'a', b'b', b'c', 3), Some((4, b'b')));
    assert_eq!(find_bytes3(b"..c.b.a", b'x', b'y', b'z', 0), None);
}

#[test]
fn identifiers_may_hold_letters_of_any_script() {
    let mut input = "müller2020:x.y rest";
    assert_eq!(identifier(&mut input), Some("müller2020:x.y"));
    assert_eq!(input, " rest");

    let mut input = "日本語{";
    assert_eq!(identifier(&mut input), Some("日本語"));
    assert_eq!(input, "{");

    let mut input = "–dash";
    assert_eq!(identifier(&mut input), None);
    assert_eq!(input, "–dash");

    let mut input = "";
    assert_eq!(identifier(&mut input), None);
}

#[test]
fn braced_literals_nest_and_escape() {
    let mut input = r"a \} b} tail";
    assert_eq!(balanced_braces(&mut input), Some(r"a \} b"));
    assert_eq!(input, "} tail");

    let mut input = "} tail";
    assert_eq!(balanced_braces(&mut input), Some(""));
    assert_eq!(input, "} tail");

    let mut input = "{open} never closed";
    assert_eq!(balanced_braces(&mut input), None);
    assert_eq!(input, "{open} never closed");

    let mut input = "ends with backslash \\";
    assert_eq!(balanced_braces(&mut input), None);

    let mut input = "é{ü}ß} x";
    assert_eq!(balanced_braces(&mut input), Some("é{ü}ß"));
}

#[test]
fn quoted_literals_respect_braces_and_escapes() {
    let mut input = r#""a {"} b" tail"#;
    assert_eq!(quoted_string(&mut input), Some(r#"a {"} b"#));
    assert_eq!(input, " tail");

    let mut input = r#""a } b" tail"#;
    assert_eq!(quoted_string(&mut input), Some("a } b"));

    let mut input = r#""" tail"#;
    assert_eq!(quoted_string(&mut input), Some(""));
    assert_eq!(input, " tail");

    let mut input = r#""never closed"#;
    assert_eq!(quoted_string(&mut input), None);
    assert_eq!(input, r#""never closed"#);

    let mut input = r#""{unbalanced" x"#;
    assert_eq!(quoted_string(&mut input), None);

    let mut input = "no quote";
    assert_eq!(quoted_string(&mut input), None);

    let mut input = r#""ends \"#;
    assert_eq!(quoted_string(&mut input), None);
}

#[test]
fn numbers_have_an_optional_sign_and_fit_an_i64() {
    let mut input = "9223372036854775807,";
    assert_eq!(number(&mut input), Some(i64::MAX));
    assert_eq!(input, ",");

    let mut input = "-9223372036854775807";
    assert_eq!(number(&mut input), Some(-i64::MAX));

    let mut input = "9223372036854775808";
    assert_eq!(number(&mut input), None);
    assert_eq!(input, "9223372036854775808");

    let mut input = "-9223372036854775808";
    assert_eq!(number(&mut input), None);

    let mut input = "000012";
    assert_eq!(number(&mut input), Some(12));

    let mut input = "-x";
    assert_eq!(number(&mut input), None);
    assert_eq!(input, "-x");

    let mut input = "+";
    assert_eq!(number(&mut input), None);

    let mut input = "12ab";
    assert_eq!(number(&mut input), Some(12));
    assert_eq!(input, "ab");
}

#[test]
fn values_try_literal_number_variable_in_turn() {
    let mut input = "-abc,";
    assert_eq!(parse_value(&mut input), Some(Value::Variable(Cow::Borrowed("-abc"))));
    assert_eq!(input, ",");

    let mut input = "2020a";
    assert_eq!(parse_value(&mut input), Some(Value::Number(2020)));
    assert_eq!(input, "a");

    let mut input = "99999999999999999999";
    assert_eq!(parse_value(&mut input), None);
    assert_eq!(input, "99999999999999999999");

    let mut input = ", x";
    assert_eq!(parse_value(&mut input), None);
    assert_eq!(input, ", x");

    let mut input = "";
    assert_eq!(parse_value(&mut input), None);
}

#[test]
fn a_hash_without_a_component_is_not_consumed() {
    let mut input = "\"a\" # , rest";
    assert_eq!(parse_value(&mut input), Some(lit("a")));
    assert_eq!(input, " # , rest");

    let mut input = "\"a\"#\"b\"   #";
    assert_eq!(
        parse_value(&mut input),
        Some(Value::Concat(Box::new(vec![lit("a"), lit("b")])))
    );
    assert_eq!(input, "   #");
}

#[test]
fn a_single_component_is_not_wrapped() {
    let mut input = "{only}";
    assert_eq!(parse_value(&mut input), Some(lit("only")));
    assert_eq!(input, "");
}

#[test]
fn entries_may_use_parentheses() {
    let mut input = "@misc(k, a = 1, b = {two}) tail";
    let entry = parse_entry(&mut input).unwrap();
    assert_eq!(entry.ty, EntryType::Misc);
    assert_eq!(entry.key, "k");
    assert_eq!(entry.fields.len(), 2);
    assert_eq!(input, "tail");
}

#[test]
fn the_closing_delimiter_must_match_the_opening_one() {
    let mut input = "@misc{k, a = 1)";
    assert_eq!(parse_entry(&mut input), None);
    assert_eq!(input, "@misc{k, a = 1)");

    let mut input = "@misc(k, a = 1}";
    assert_eq!(parse_entry(&mut input), None);
}

#[test]
fn an_entry_needs_a_key_and_a_comma() {
    for text in ["@misc{}", "@misc{k}", "@misc{, a = 1}", "@misc k, a = 1}", "@{k, a = 1}", "misc{k,}"] {
        let mut input = text;
        assert_eq!(parse_entry(&mut input), None, "{}", text);
        assert_eq!(input, text);
    }
    let mut input = "@misc{k,}";
    let entry = parse_entry(&mut input).unwrap();
    assert_eq!(entry.fields.len(), 0);
}

#[test]
fn a_field_that_does_not_parse_ends_the_list() {
    // What was read of the field stays read, so a name, or a name and `=`,
    // right before the closing delimiter is passed over.
    for text in [
        "@misc{k, a = 1, junk}",
        "@misc{k, a = 1, junk }",
        "@misc{k, a = 1, b = }",
        "@misc{k, a = 1, b =}",
    ] {
        let mut input = text;
        let entry = parse_entry(&mut input).unwrap();
        assert_eq!(entry.fields.len(), 1, "{}", text);
        assert_eq!(entry.fields[0].name, "a");
        assert_eq!(input, "");
    }
    let mut input = "@misc{k, lonely}";
    assert_eq!(parse_entry(&mut input).unwrap().fields.len(), 0);
}

#[test]
fn after_the_list_the_closing_delimiter_must_follow() {
    for text in [
        "@misc{k, a = 1 b = 2}",
        "@misc{k, a = 1,, b = 2}",
        "@misc{k, a = 1, junk b}",
        "@misc{k, a = 1, b = \"open}",
        "@misc{k, a = 1, b = {open}",
        "@misc{k, a = 1, = 2}",
        "@misc{k, a = 1, b = 2",
        "@misc{k, a = 1, b = ,}",
    ] {
        let mut input = text;
        assert_eq!(parse_entry(&mut input), None, "{}", text);
        assert_eq!(input, text);
    }
}

#[test]
fn unknown_types_are_custom_and_case_is_ignored() {
    let mut input = "@Software{k, a = 1}";
    assert_eq!(
        parse_entry(&mut input).unwrap().ty,
        EntryType::Custom(Cow::Borrowed("Software"))
    );
    let mut input = "@CONFERENCE{k, a = 1}";
    assert_eq!(parse_entry(&mut input).unwrap().ty, EntryType::InProceedings);
    let mut input = "@PhDThesis{k, a = 1}";
    assert_eq!(parse_entry(&mut input).unwrap().ty, EntryType::PhdThesis);
}

#[test]
fn white_space_is_free_around_tokens() {
    let mut input = "  \n@article \t{ \n k \r\n , a\n=\n1 \n, b = \"x\" \n # \n y \n } \n next";
    let entry = parse_entry(&mut input).unwrap();
    assert_eq!(entry.key, "k");
    assert_eq!(entry.fields.len(), 2);
    assert_eq!(
        entry.fields[1].value,
        Value::Concat(Box::new(vec![lit("x"), Value::Variable(Cow::Borrowed("y"))]))
    );
    assert_eq!(input, "next");
}

#[test]
fn items_come_in_the_order_of_the_text() {
    let input = "% first\n@string{s = 1}\n@preamble{\"p\"}\n@comment{c}\n@comment(d)\n@misc{k, a = s}\nfree text @misc{l,}";
    let items = parse_bibtex(input).unwrap();
    assert_eq!(items.len(), 8);
    assert_eq!(items[0], ParsedItem::Comment(" first"));
    assert_eq!(items[1], ParsedItem::String("s", Value::Number(1)));
    assert_eq!(items[2], ParsedItem::Preamble(lit("p")));
    assert_eq!(items[3], ParsedItem::Comment("c"));
    assert_eq!(items[4], ParsedItem::Comment("d"));
    assert!(matches!(&items[5], ParsedItem::Entry(e) if e.key == "k"));
    assert_eq!(items[6], ParsedItem::Comment("free text "));
    assert!(matches!(&items[7], ParsedItem::Entry(e) if e.key == "l"));
}

#[test]
fn keywords_are_case_insensitive_and_take_parentheses() {
    let items = parse_bibtex("@STRING(a = {x})@PreAmble(\"p\" # a)@COMMENT{c {d} e}").unwrap();
    assert_eq!(items.len(), 3);
    assert_eq!(items[0], ParsedItem::String("a", lit("x")));
    assert_eq!(
        items[1],
        ParsedItem::Preamble(Value::Concat(Box::new(vec![
            lit("p"),
            Value::Variable(Cow::Borrowed("a"))
        ])))
    );
    assert_eq!(items[2], ParsedItem::Comment("c {d} e"));
}

#[test]
fn an_item_that_reads_as_an_entry_is_an_entry() {
    let items = parse_bibtex("@string{key, field = 1}").unwrap();
    match &items[0] {
        ParsedItem::Entry(e) => {
            assert_eq!(e.ty, EntryType::Custom(Cow::Borrowed("string")));
            assert_eq!(e.key, "key");
        }
        other => panic!("not an entry: {:?}", other),
    }
}

#[test]
fn line_comments_end_before_the_line_break() {
    let items = parse_bibtex("% one\r\n%two\n%").unwrap();
    assert_eq!(
        items,
        vec![
            ParsedItem::Comment(" one"),
            ParsedItem::Comment("two"),
            ParsedItem::Comment("")
        ]
    );
    assert!(parse_bibtex("% lone carriage return\rmore").is_err());
}

#[test]
fn empty_and_blank_inputs_have_no_items() {
    assert_eq!(parse_bibtex("").unwrap().len(), 0);
    assert_eq!(parse_bibtex(" \n\t\r\n \u{a0}\u{2003} ").unwrap().len(), 0);
    let db = Database::parse("").unwrap();
    assert_eq!(db.entries().len(), 0);
    assert_eq!(db.strings().len(), 0);
}

#[test]
fn free_text_needs_a_following_at_sign() {
    match parse_bibtex("@misc{k,}\ntrailing words") {
        Err(Error::ParseError {
            line,
            column,
            message,
            snippet,
        }) => {
            assert_eq!((line, column), (2, 1));
            assert_eq!(message, "Failed to parse entry");
            assert_eq!(snippet, Some("trailing words".to_string()));
        }
        other => panic!("unexpected result: {:?}", other),
    }
}

#[test]
fn parse_errors_are_located_and_the_snippet_is_bounded() {
    let input = "@misc{a, x = 1}\n\n   @misc{broken, title = \"never closed, and the text goes on for a while\n";
    match parse_bibtex(input) {
        Err(Error::ParseError {
            line,
            column,
            message: _,
            snippet,
        }) => {
            assert_eq!((line, column), (3, 4));
            let snippet = snippet.unwrap();
            assert_eq!(snippet, "@misc{broken, title = \"never closed, and...");
            assert_eq!(snippet.chars().count(), 43);
        }
        other => panic!("unexpected result: {:?}", other),
    }
}

#[test]
fn columns_count_characters_not_bytes() {
    let input = "% ünï\n@comment{é} @";
    match parse_bibtex(input) {
        Err(Error::ParseError { line, column, snippet, .. }) => {
            assert_eq!((line, column), (2, 13));
            assert_eq!(snippet, Some("@".to_string()));
        }
        other => panic!("unexpected result: {:?}", other),
    }
    assert_eq!(calculate_position("ab\ncd", 0), (1, 1));
    assert_eq!(calculate_position("ab\ncd", 2), (1, 3));
    assert_eq!(calculate_position("ab\ncd", 3), (2, 1));
    assert_eq!(calculate_position("é\nü x", 5), (2, 2));
}

#[test]
fn no_partial_result_is_returned() {
    assert!(Database::parse("@misc{ok, a = 1}\n@misc{bad").is_err());
}

#[test]
fn snippets_take_whole_characters() {
    assert_eq!(get_snippet("héllo wörld", 0, 4), "héll...");
    assert_eq!(get_snippet("héllo", 0, 40), "héllo");
    assert_eq!(get_snippet("héllo", 3, 1), "l...");
    assert_eq!(get_snippet("ééé", 0, 3), "ééé...");
    assert_eq!(get_snippet("abc", 3, 5), "");
    assert_eq!(get_snippet("abc", 0, 0), "...");
}

#[test]
fn positions_behind_the_input_are_those_of_its_end() {
    assert_eq!(calculate_position("ab\ncd", 5), (2, 3));
    assert_eq!(calculate_position("ab\ncd", 50), (2, 3));
    assert_eq!(calculate_position("", 0), (1, 1));
    assert_eq!(calculate_position("", 3), (1, 1));
}
