use bibtex_parser::fixtures::{
    average_bytes_per_entry, from_chars, generate_realistic_bibtex, rekey, replace_chars,
    small_test_file, to_chars, venue_entries, COMMON_STRINGS,
};
use bibtex_parser::Database;

#[test]
fn test_realistic_generation() {
    let bib = generate_realistic_bibtex(10);
    assert!(bib.len() > 6000); // Should be ~7000 bytes
    assert!(bib.contains("@string"));
    assert!(bib.contains("entry0"));
    assert!(bib.contains("entry9"));
}

#[test]
fn test_average_size() {
    let avg = average_bytes_per_entry();
    assert!(avg > 500); // Real entries are 500-700 bytes
    assert!(avg < 1000);
}

fn generated_with_std(n_entries: usize) -> String {
    let mut bib = String::new();
    bib.push_str(COMMON_STRINGS);
    bib.push('\n');
    let venues = venue_entries();
    for i in 0..n_entries {
        let template = &venues[i % venues.len()];
        let entry = template
            .content
            .replace("2024", &format!("{}", 2020 + (i % 5)))
            .replace("2023", &format!("{}", 2019 + (i % 5)))
            .replace("2021", &format!("{}", 2018 + (i % 5)))
            .replace("Volume 11", &format!("Volume {}", 10 + (i % 5)))
            .replace("volume = {37}", &format!("volume = {{{}}}", 35 + (i % 5)))
            .replace(
                "pages = {1--10}",
                &format!("pages = {{{}--{}}}", i * 10 + 1, i * 10 + 10),
            );
        let key_line = entry.lines().next().unwrap();
        let new_key = format!("entry{}", i);
        let updated = entry.replacen(
            &key_line[key_line.find('{').unwrap() + 1..key_line.find(',').unwrap()],
            &new_key,
            1,
        );
        bib.push_str(&updated);
        bib.push_str("\n\n");
    }
    bib
}

#[test]
fn the_generator_agrees_with_the_replacements_of_std() {
    for n in [0, 1, 2, 7, 13] {
        assert_eq!(generate_realistic_bibtex(n), generated_with_std(n));
    }
    assert_eq!(generate_realistic_bibtex(0), format!("{}\n", COMMON_STRINGS));
}

#[test]
fn generated_files_parse_into_as_many_entries() {
    let db = Database::parse(generate_realistic_bibtex(12).as_str())
        .unwrap()
        .into_owned();
    assert_eq!(db.entries().len(), 12);
    assert_eq!(db.strings().len(), 8);
    assert_eq!(db.entries()[7].key(), "entry7");
    assert_eq!(
        db.entries()[0].get("booktitle"),
        Some("Advances in Neural Information Processing Systems")
    );
    assert_eq!(db.entries()[0].get("year"), Some("2020"));
    assert_eq!(db.entries()[11].get("pages"), Some("111--120"));
}

#[test]
fn the_venue_entries_and_the_small_file_parse() {
    let venues = venue_entries();
    assert_eq!(venues.len(), 6);
    assert_eq!(venues[0].name, "neurips_2024");
    assert_eq!(venues[5].venue, "PMLR");
    assert_eq!(average_bytes_per_entry(), 905);
    for venue in &venues {
        let text = format!("{}\n{}", COMMON_STRINGS, venue.content);
        let db = Database::parse(&text).unwrap();
        assert_eq!(db.entries().len(), 1);
        assert!(db.entries()[0].fields().len() >= venue.field_count);
    }
    let db = Database::parse(small_test_file()).unwrap();
    assert_eq!(db.entries().len(), 2);
    assert_eq!(db.entries()[0].get("journal"), Some("IEEE Transactions"));
}

fn replace(s: &str, from: &str, to: &str, limit: Option<usize>) -> String {
    from_chars(&replace_chars(
        &to_chars(s),
        &to_chars(from),
        &to_chars(to),
        limit,
    ))
}

#[test]
fn replacement_goes_left_to_right_without_overlap() {
    assert_eq!(replace("aaaa", "aa", "b", None), "bb");
    assert_eq!(replace("aaa", "aa", "b", None), "ba");
    assert_eq!(replace("abcabc", "bc", "", None), "aa");
    assert_eq!(replace("abcabc", "bc", "X--", Some(1)), "aX--abc");
    assert_eq!(replace("abcabc", "bc", "X", Some(0)), "abcabc");
    assert_eq!(replace("abcabc", "bc", "X", Some(5)), "aXaX");
    assert_eq!(replace("abc", "", "X", None), "abc");
    assert_eq!(replace("abc", "abcd", "X", None), "abc");
    assert_eq!(replace("", "a", "X", None), "");
    assert_eq!(replace("héé", "é", "e", None), "hee");
    assert_eq!(replace("x", "x", "x", None), "x");
}

#[test]
fn rekey_replaces_the_key_of_the_first_line() {
    let key = to_chars("new");
    let rekeyed = |s: &str| from_chars(&rekey(&to_chars(s), &key));
    assert_eq!(rekeyed("@a{old,\n x = {old},\n}"), "@a{new,\n x = {old},\n}");
    assert_eq!(rekeyed("@old{old, x = 1}"), "@new{old, x = 1}");
    assert_eq!(rekeyed("no braces here,"), "no braces here,");
    assert_eq!(rekeyed("@a{\nkey, x = 1}"), "@a{\nkey, x = 1}");
    assert_eq!(rekeyed("@a,{key}"), "@a,{key}");
    assert_eq!(rekeyed("@a{,}"), "@a{,}");
    assert_eq!(rekeyed(""), "");
}

#[test]
fn a_large_generated_file_parses() {
    let text = generate_realistic_bibtex(600);
    let db = Database::parse(&text).unwrap();
    assert_eq!(db.entries().len(), 600);
    assert_eq!(db.find_by_key("entry599").unwrap().key(), "entry599");
    assert_eq!(db.find_by_type("article").len(), 300);
    let written = bibtex_parser::to_string(&db).unwrap();
    assert_eq!(Database::parse(&written).unwrap().entries().len(), 600);
}
