use sheet_translate::overrides::{Dictionary, InvalidEntry};
use sheet_translate::prompt::build_prompt;

fn table(entries: &[(&str, &str)]) -> Dictionary {
    let mut table = Dictionary::new();
    for (key, value) in entries {
        table.insert(key.to_string(), value.to_string());
    }
    table
}

fn pairs(entries: &[(&str, &str)]) -> Vec<(String, String)> {
    entries.iter().map(|(k, v)| (k.to_string(), v.to_string())).collect()
}

#[test]
fn parse_entry_normalizes_key_and_trims_value() {
    assert_eq!(
        Dictionary::parse_entry("  CaT  \u{2013}  Pisic\u{103}  "),
        Some(("cat".to_string(), "Pisic\u{103}".to_string()))
    );
}

#[test]
fn parse_entry_splits_at_first_separator() {
    assert_eq!(
        Dictionary::parse_entry("a \u{2013} b \u{2013} c"),
        Some(("a".to_string(), "b \u{2013} c".to_string()))
    );
}

#[test]
fn parse_entry_accepts_empty_sides() {
    assert_eq!(Dictionary::parse_entry("\u{2013}"), Some((String::new(), String::new())));
}

#[test]
fn parse_entry_rejects_line_without_separator() {
    assert_eq!(Dictionary::parse_entry("cat - pisica"), None);
    assert_eq!(Dictionary::parse_entry(""), None);
}

#[test]
fn from_lines_reports_number_of_offending_line() {
    let lines = vec![
        "cat \u{2013} pisic\u{103}".to_string(),
        "dog caine".to_string(),
        "also wrong".to_string(),
    ];
    match Dictionary::from_lines(&lines) {
        Err(e) => assert_eq!(e, InvalidEntry { line: 2 }),
        Ok(_) => panic!("a line without separator was accepted"),
    }
}

#[test]
fn from_lines_reports_first_line() {
    let lines = vec!["nothing here".to_string()];
    match Dictionary::from_lines(&lines) {
        Err(e) => assert_eq!(e.line, 1),
        Ok(_) => panic!("a line without separator was accepted"),
    }
}

#[test]
fn from_lines_of_nothing_is_empty() {
    let table = Dictionary::from_lines(&Vec::new()).ok().unwrap();
    assert_eq!(table.len(), 0);
    assert_eq!(table.lookup("cat"), None);
}

#[test]
fn from_lines_later_entry_replaces_earlier() {
    let lines = vec![
        "cat \u{2013} first".to_string(),
        "dog \u{2013} caine".to_string(),
        " CAT \u{2013} second".to_string(),
    ];
    let table = Dictionary::from_lines(&lines).ok().unwrap();
    assert_eq!(table.len(), 2);
    assert_eq!(table.lookup("cat"), Some(&"second".to_string()));
    assert_eq!(table.lookup("dog"), Some(&"caine".to_string()));
}

#[test]
fn lookup_matches_whole_key_only() {
    let table = table(&[("cat", "pisic\u{103}")]);
    assert_eq!(table.lookup("cat"), Some(&"pisic\u{103}".to_string()));
    assert_eq!(table.lookup("cats"), None);
    assert_eq!(table.lookup("ca"), None);
    assert_eq!(table.lookup(""), None);
}

#[test]
fn lookup_finds_every_key_of_a_larger_table() {
    let mut table = Dictionary::new();
    let words = ["m", "c", "x", "a", "q", "b", "z", "k", "d", "y", "e"];
    for word in words {
        table.insert(word.to_string(), format!("{}!", word));
    }
    assert_eq!(table.len(), words.len());
    for word in words {
        assert_eq!(table.lookup(word), Some(&format!("{}!", word)));
    }
    assert_eq!(table.lookup("n"), None);
}

#[test]
fn insert_replaces_value_under_same_key() {
    let mut table = table(&[("cat", "one")]);
    table.insert("cat".to_string(), "two".to_string());
    assert_eq!(table.len(), 1);
    assert_eq!(table.lookup("cat"), Some(&"two".to_string()));
}

#[test]
fn hints_come_in_ascending_key_order() {
    let table = table(&[("dog", "caine"), ("cat", "pisica"), ("at", "la"), ("bird", "pasare")]);
    assert_eq!(
        table.hints("cat and dog"),
        pairs(&[("at", "la"), ("cat", "pisica"), ("dog", "caine")])
    );
}

#[test]
fn hints_order_is_by_code_point() {
    let table = table(&[("b", "2"), ("B", "1"), ("\u{e9}", "4"), ("ab", "3"), ("a", "0")]);
    assert_eq!(
        table.hints("B ab \u{e9}"),
        pairs(&[("B", "1"), ("a", "0"), ("ab", "3"), ("b", "2"), ("\u{e9}", "4")])
    );
}

#[test]
fn hints_of_unrelated_key_are_empty() {
    let table = table(&[("dog", "caine"), ("cat", "pisica")]);
    assert_eq!(table.hints("bird"), Vec::new());
}

#[test]
fn prompt_without_hints_is_the_bare_request() {
    assert_eq!(
        build_prompt(&Vec::new(), "Hello"),
        "Translate this into Romanian:\nHello\n\nRomanian:\n"
    );
}

#[test]
fn prompt_with_hints_lists_them_first() {
    let hints = pairs(&[("black", "negru"), ("cat", "pisic\u{103}")]);
    assert_eq!(
        build_prompt(&hints, "Black cat"),
        "Considering the following translations:\nblack \u{2013} negru\ncat \u{2013} pisic\u{103}\n\nTranslate this into Romanian:\nBlack cat\n\nRomanian:\n"
    );
}
