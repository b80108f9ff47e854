use bibtex_parser::database::ParseOptions;
use bibtex_parser::{Database, Entry, EntryType, Error, Field, Value};
use std::borrow::Cow;

fn field<'a, 'b>(entry: &'b Entry<'a>, name: &str) -> &'b Value<'a> {
    &entry
        .fields
        .iter()
        .find(|f| f.name == name)
        .unwrap()
        .value
}

fn lies_within(piece: &str, input: &str) -> bool {
    let start = input.as_ptr() as usize;
    let at = piece.as_ptr() as usize;
    start <= at && at + piece.len() <= start + input.len()
}

#[test]
fn literals_stay_borrowed_from_the_input() {
    let input = String::from("@article{k, title = \"Quoted\", note = {Braced}, year = 2020}");
    let db = Database::parse(&input).unwrap();
    let entry = &db.entries()[0];
    for name in ["title", "note"] {
        match field(entry, name) {
            Value::Literal(Cow::Borrowed(text)) => assert!(lies_within(text, &input)),
            other => panic!("{} is not a borrowed literal: {:?}", name, other),
        }
    }
    assert_eq!(field(entry, "year"), &Value::Number(2020));
    match &entry.key {
        Cow::Borrowed(key) => assert!(lies_within(key, &input)),
        Cow::Owned(_) => panic!("the key is a copy"),
    }
}

#[test]
fn a_macro_that_is_a_literal_resolves_to_a_borrowed_literal() {
    let input = String::from("@string{me = \"J\"}\n@article{k, author = me}");
    let db = Database::parse(&input).unwrap();
    match field(&db.entries()[0], "author") {
        Value::Literal(Cow::Borrowed(text)) => {
            assert_eq!(*text, "J");
            assert!(lies_within(text, &input));
        }
        other => panic!("not a borrowed literal: {:?}", other),
    }
}

#[test]
fn concatenation_joins_the_texts_in_order() {
    let db = Database::parse(r#"@misc{k, a = "Hello" # ", " # "World"}"#).unwrap();
    match field(&db.entries()[0], "a") {
        Value::Literal(Cow::Owned(text)) => assert_eq!(text, "Hello, World"),
        other => panic!("not an owned literal: {:?}", other),
    }
}

#[test]
fn concatenation_renders_numbers_in_decimal() {
    let db = Database::parse(r#"@misc{k, a = "v" # 12 # {-} # -7 # 0}"#).unwrap();
    assert_eq!(db.entries()[0].get("a"), Some("v12--70"));
}

#[test]
fn concatenation_of_one_macro_and_literals() {
    let input = "@string{j = {Journal}}\n@misc{k, a = j # \" of \" # j}";
    let db = Database::parse(input).unwrap();
    assert_eq!(db.entries()[0].get("a"), Some("Journal of Journal"));
}

#[test]
fn a_macro_defined_by_another_macro_resolves_through_it() {
    let first = "@string{inner = \"one\"}\n@string{outer = inner}\n@misc{k, f = outer}";
    let db = Database::parse(first).unwrap();
    assert_eq!(db.entries()[0].get("f"), Some("one"));

    let second = "@string{inner = \"two\"}\n@string{outer = inner}\n@misc{k, f = outer}";
    let db = Database::parse(second).unwrap();
    assert_eq!(db.entries()[0].get("f"), Some("two"));
}

#[test]
fn a_macro_may_be_defined_after_its_use() {
    let input = "@misc{k, f = later}\n@string{later = \"defined below\"}";
    let db = Database::parse(input).unwrap();
    assert_eq!(db.entries()[0].get("f"), Some("defined below"));
}

#[test]
fn the_last_definition_of_a_macro_wins() {
    let input = "@string{m = \"first\"}\n@misc{k, f = m}\n@string{m = \"second\"}";
    let db = Database::parse(input).unwrap();
    assert_eq!(db.strings().len(), 1);
    assert_eq!(db.entries()[0].get("f"), Some("second"));
}

#[test]
fn an_undefined_variable_is_reported_by_name() {
    match Database::parse("@misc{k, f = missing}") {
        Err(Error::UndefinedVariable(name)) => assert_eq!(name, "missing"),
        other => panic!("unexpected result: {:?}", other),
    }
    match Database::parse("@string{a = \"x\"}\n@misc{k, f = a # gone # a}") {
        Err(Error::UndefinedVariable(name)) => assert_eq!(name, "gone"),
        other => panic!("unexpected result: {:?}", other),
    }
    match Database::parse("@preamble{nothing}") {
        Err(Error::UndefinedVariable(name)) => assert_eq!(name, "nothing"),
        other => panic!("unexpected result: {:?}", other),
    }
}

#[test]
fn macro_names_are_case_sensitive() {
    match Database::parse("@string{Me = \"x\"}\n@misc{k, f = me}") {
        Err(Error::UndefinedVariable(name)) => assert_eq!(name, "me"),
        other => panic!("unexpected result: {:?}", other),
    }
}

#[test]
fn the_first_failing_value_is_the_one_reported() {
    match Database::parse("@misc{k, a = first, b = second}") {
        Err(Error::UndefinedVariable(name)) => assert_eq!(name, "first"),
        other => panic!("unexpected result: {:?}", other),
    }
}

#[test]
fn a_macro_that_refers_to_itself_is_a_circular_reference() {
    match Database::parse("@string{a = a}\n@misc{k, f = a}") {
        Err(Error::CircularReference(name)) => assert_eq!(name, "a"),
        other => panic!("unexpected result: {:?}", other),
    }
}

#[test]
fn a_longer_cycle_of_macros_is_a_circular_reference() {
    let input = "@string{a = b}\n@string{b = \"x\" # c}\n@string{c = a}\n@misc{k, f = a}";
    match Database::parse(input) {
        Err(Error::CircularReference(_)) => {}
        other => panic!("unexpected result: {:?}", other),
    }
}

#[test]
fn a_cycle_that_nothing_uses_does_no_harm() {
    let db = Database::parse("@string{a = a}\n@misc{k, f = \"plain\"}").unwrap();
    assert_eq!(db.entries()[0].get("f"), Some("plain"));
}

#[test]
fn a_chain_as_long_as_the_table_resolves() {
    let input = "@string{a = b}\n@string{b = c}\n@string{c = d}\n@string{d = \"end\"}\n@misc{k, f = a}";
    let db = Database::parse(input).unwrap();
    assert_eq!(db.entries()[0].get("f"), Some("end"));
}

#[test]
fn scenario_macro_and_number() {
    let db = Database::parse("@string{me=\"J\"}\n@article{k, author=me, year=2020}").unwrap();
    assert_eq!(db.entries().len(), 1);
    let entry = &db.entries()[0];
    assert_eq!(entry.key(), "k");
    assert_eq!(entry.entry_type(), &EntryType::Article);
    assert_eq!(field(entry, "author"), &Value::Literal(Cow::Borrowed("J")));
    assert_eq!(field(entry, "year"), &Value::Number(2020));
}

#[test]
fn scenario_trailing_comma() {
    let with = "@book{k, author = \"A\", title = {T}, year = 1984,}";
    let without = "@book{k, author = \"A\", title = {T}, year = 1984}";
    let a = Database::parse(with).unwrap();
    let b = Database::parse(without).unwrap();
    assert_eq!(a.entries(), b.entries());
    assert_eq!(a.entries()[0].fields.len(), 3);
}

#[test]
fn scenario_many_files_one_entry_each() {
    for n in [0usize, 1, 2, 4, 9] {
        let contents: Vec<String> = (0..n)
            .map(|i| format!("@string{{s{} = \"v\"}}\n@misc{{key{}, note = s{}}}", i, i, i))
            .collect();
        for threads in [None, Some(0), Some(1), Some(2), Some(4)] {
            let db = ParseOptions::new()
                .threads(threads)
                .parse_contents(&contents)
                .unwrap();
            assert_eq!(db.entries().len(), n);
            assert_eq!(db.strings().len(), n);
            for i in 0..n {
                assert_eq!(db.entries()[i].key(), format!("key{}", i));
            }
        }

        // Merging in chunks gives the same entries as merging all at once.
        let parts: Vec<Database<'static>> = contents
            .iter()
            .map(|c| Database::parse_owned(c).unwrap())
            .collect();
        assert_eq!(Database::merge_all(parts).entries().len(), n);
    }
}

#[test]
fn one_failing_file_fails_the_whole_ingestion() {
    let contents = vec![
        String::from("@misc{a, n = 1}"),
        String::from("@misc{b, n = undefined}"),
        String::from("@misc{c"),
    ];
    match ParseOptions::new().parse_contents(&contents) {
        Err(Error::UndefinedVariable(name)) => assert_eq!(name, "undefined"),
        other => panic!("unexpected result: {:?}", other),
    }
}

#[test]
fn worker_count_follows_the_thread_setting() {
    assert_eq!(ParseOptions::new().worker_count(8), 8);
    assert_eq!(ParseOptions::new().threads(None).worker_count(3), 3);
    assert_eq!(ParseOptions::new().threads(Some(0)).worker_count(8), 1);
    assert_eq!(ParseOptions::new().threads(Some(1)).worker_count(8), 1);
    assert_eq!(ParseOptions::new().threads(Some(2)).worker_count(8), 2);
    assert_eq!(ParseOptions::new().threads(Some(16)).worker_count(8), 16);
}

#[test]
fn the_thread_setting_does_not_change_a_single_parse() {
    let input = "@string{me = \"J\"}\n@article{k, author = me}";
    for threads in [None, Some(1), Some(4)] {
        let db = Database::parser().threads(threads).parse(input).unwrap();
        assert_eq!(db.entries().len(), 1);
        assert_eq!(db.entries()[0].get_as_string("author").unwrap(), "J");
    }
}

#[test]
fn merge_puts_the_other_database_after_this_one() {
    let mut a = Database::parse("@string{s = \"a\"}\n@misc{one, n = 1}\n@preamble{\"p1\"}\n% c1\n")
        .unwrap();
    let b = Database::parse("@string{s = \"b\"}\n@string{t = \"t\"}\n@misc{two, n = 2}\n@preamble{\"p2\"}\n% c2\n")
        .unwrap();
    a.merge(b);
    assert_eq!(a.entries().len(), 2);
    assert_eq!(a.entries()[0].key(), "one");
    assert_eq!(a.entries()[1].key(), "two");
    assert_eq!(a.strings().len(), 2);
    assert_eq!(a.strings().get("s"), Some(&Value::Literal(Cow::Borrowed("b"))));
    assert_eq!(a.preambles().len(), 2);
    assert_eq!(a.preambles()[1], Value::Literal(Cow::Borrowed("p2")));
    assert_eq!(a.comments(), &[Cow::Borrowed(" c1"), Cow::Borrowed(" c2")]);
}

#[test]
fn into_owned_keeps_the_content_and_drops_the_borrow() {
    let owned = {
        let input = String::from("@string{s = \"v\"}\n@misc{k, a = \"lit\", b = s # \"!\"}\n@preamble{\"p\"}\n% note");
        Database::parse(&input).unwrap().into_owned()
    };
    assert_eq!(owned.entries().len(), 1);
    assert_eq!(owned.entries()[0].get("a"), Some("lit"));
    assert_eq!(owned.entries()[0].get("b"), Some("v!"));
    assert!(matches!(owned.entries()[0].key, Cow::Owned(_)));
    assert!(matches!(
        owned.entries()[0].fields[0].value,
        Value::Literal(Cow::Owned(_))
    ));
    assert_eq!(owned.strings().get("s"), Some(&Value::Literal(Cow::Owned("v".to_string()))));
    assert_eq!(owned.preambles(), &[Value::Literal(Cow::Owned("p".to_string()))]);
    assert_eq!(owned.comments().len(), 1);
    assert!(matches!(owned.comments()[0], Cow::Owned(_)));
}

#[test]
fn expand_value_ref_and_get_expanded_string() {
    let mut db = Database::new();
    db.add_string("a", Value::Literal(Cow::Borrowed("x")));
    db.add_string("b", Value::Variable(Cow::Borrowed("a")));
    let value = Value::Concat(Box::new(vec![
        Value::Variable(Cow::Borrowed("b")),
        Value::Number(-3),
        Value::Literal(Cow::Borrowed("z")),
    ]));
    assert_eq!(
        db.expand_value_ref(&value).unwrap(),
        Value::Literal(Cow::Owned("x-3z".to_string()))
    );
    assert_eq!(db.get_expanded_string(&value).unwrap(), "x-3z");
    assert_eq!(db.get_expanded_string(&Value::Number(5)).unwrap(), "5");
    match db.get_expanded_string(&Value::Variable(Cow::Borrowed("nope"))) {
        Err(Error::UndefinedVariable(name)) => assert_eq!(name, "nope"),
        other => panic!("unexpected result: {:?}", other),
    }
    let literal = Value::Literal(Cow::Borrowed("kept"));
    assert_eq!(db.expand_value_ref(&literal).unwrap(), literal);
}

#[test]
fn from_items_builds_the_same_database_as_parse() {
    let input = "@string{s = \"v\"}\n@misc{k, a = s}\n% c\n@preamble{s # s}";
    let items = bibtex_parser::parser::parse_bibtex(input).unwrap();
    assert_eq!(items.len(), 4);
    let db = Database::from_items(items).unwrap();
    assert_eq!(db.entries()[0].get("a"), Some("v"));
    assert_eq!(db.preambles(), &[Value::Literal(Cow::Owned("vv".to_string()))]);
    assert_eq!(db.comments(), &[Cow::Borrowed(" c")]);
}

#[test]
fn programmatic_entries_keep_their_values() {
    let mut db = Database::new();
    let mut entry = Entry::new(EntryType::Misc, "k");
    entry.add_field(Field::new("f", Value::Variable(Cow::Borrowed("v"))));
    db.add_entry(entry);
    db.add_preamble(Value::Number(1));
    db.add_comment("c");
    assert_eq!(db.entries()[0].get_as_string("f"), Some("{v}".to_string()));
    assert_eq!(db.preambles(), &[Value::Number(1)]);
    assert_eq!(db.comments(), &[Cow::Borrowed("c")]);
    db.entries_mut().clear();
    db.preambles_mut().push(Value::Number(2));
    db.comments_mut().clear();
    db.strings_mut().insert(Cow::Borrowed("n"), Value::Number(3));
    assert_eq!(db.entries().len(), 0);
    assert_eq!(db.preambles().len(), 2);
    assert_eq!(db.comments().len(), 0);
    assert_eq!(db.strings().len(), 1);
}

#[test]
fn smart_expansion_hands_simple_values_back() {
    let mut db = Database::default();
    db.add_string("a", Value::Literal(Cow::Borrowed("x")));
    let text = String::from("kept as it is");
    let literal = Value::Literal(Cow::Borrowed(text.as_str()));
    match db.smart_expand_value(literal).unwrap() {
        Value::Literal(Cow::Borrowed(kept)) => assert!(std::ptr::eq(kept, text.as_str())),
        other => panic!("unexpected value: {:?}", other),
    }
    assert_eq!(db.smart_expand_value(Value::Number(9)).unwrap(), Value::Number(9));
    assert_eq!(
        db.smart_expand_value(Value::Variable(Cow::Borrowed("a"))).unwrap(),
        Value::Literal(Cow::Borrowed("x"))
    );
    assert_eq!(
        db.expand_concatenation(vec![
            Value::Variable(Cow::Borrowed("a")),
            Value::Number(1),
        ])
        .unwrap(),
        Value::Literal(Cow::Owned("x1".to_string()))
    );
    assert_eq!(
        db.expand_concatenation(vec![]).unwrap(),
        Value::Literal(Cow::Owned(String::new()))
    );
    match db.expand_concatenation(vec![Value::Variable(Cow::Borrowed("b"))]) {
        Err(Error::UndefinedVariable(name)) => assert_eq!(name, "b"),
        other => panic!("unexpected result: {:?}", other),
    }
}

#[test]
fn defaults_are_empty() {
    let db = Database::default();
    assert_eq!(db.entries().len(), 0);
    assert_eq!(db.strings().len(), 0);
    assert_eq!(bibtex_parser::DatabaseBuilder::default().build().entries().len(), 0);
    assert_eq!(ParseOptions::default().threads, None);
    let db = bibtex_parser::parse("@misc{k, a = 1}").unwrap();
    assert_eq!(db.entries().len(), 1);
}

#[test]
fn a_long_chain_of_macros_resolves() {
    let mut text = String::from("@string{m0 = \"end\"}\n");
    for i in 1..=300 {
        text.push_str(&format!("@string{{m{} = m{}}}\n", i, i - 1));
    }
    text.push_str("@misc{k, f = m300 # \"!\"}");
    let db = Database::parse(&text).unwrap();
    assert_eq!(db.strings().len(), 301);
    assert_eq!(db.entries()[0].get("f"), Some("end!"));
}
