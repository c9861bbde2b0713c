use sheet_translate::collect::{collect, Collected};
use sheet_translate::grid::{CellLocation, CellValue, CellWrite, SourceCell};
use sheet_translate::overrides::Dictionary;
use sheet_translate::registry::{Classification, Registry};
use sheet_translate::scan::scan;
use sheet_translate::worker::{Failure, TranslationOutcome};

fn at(row: u32, column: u16) -> CellLocation {
    CellLocation { row, column }
}

fn text(row: u32, column: u16, value: &str) -> SourceCell {
    SourceCell { location: at(row, column), value: CellValue::Text(value.to_string()) }
}

fn write(row: u32, column: u16, value: &str) -> CellWrite {
    CellWrite { location: at(row, column), text: value.to_string() }
}

fn cat_table() -> Dictionary {
    let mut table = Dictionary::new();
    table.insert("cat".to_string(), "pisic\u{103}".to_string());
    table
}

fn translated(key: &str, value: &str) -> TranslationOutcome {
    TranslationOutcome::Translated { key: key.to_string(), text: value.to_string() }
}

#[test]
fn override_hit_gives_the_override_and_no_task() {
    let table = cat_table();
    let mut registry = Registry::new();
    let class = registry.classify(&table, at(1, 0), "Cat");
    assert_eq!(class, Classification::Overridden("pisic\u{103}".to_string()));
    assert_eq!(registry.len(), 0);
    assert_eq!(registry.find("cat"), None);
}

#[test]
fn same_text_in_other_case_shares_one_task() {
    let table = Dictionary::new();
    let mut registry = Registry::new();
    assert_eq!(registry.classify(&table, at(1, 0), "Hello"), Classification::New(0));
    assert_eq!(registry.classify(&table, at(5, 2), "hello"), Classification::Duplicate(0));
    assert_eq!(registry.len(), 1);
    assert_eq!(registry.find("hello"), Some(0));
    let task = registry.task(0);
    assert_eq!(task.key, "hello");
    assert_eq!(task.locations, vec![at(1, 0), at(5, 2)]);
    assert_eq!(task.prompt, "Translate this into Romanian:\nHello\n\nRomanian:\n");
    assert_eq!(
        collect(&registry, &translated("hello", "salut")),
        Collected::Writes(vec![write(1, 0, "salut"), write(5, 2, "salut")])
    );
}

#[test]
fn key_is_trimmed_and_prompt_keeps_the_case() {
    let table = Dictionary::new();
    let mut registry = Registry::new();
    assert_eq!(registry.classify(&table, at(2, 1), "  Good Morning \t"), Classification::New(0));
    assert_eq!(registry.classify(&table, at(3, 1), "good morning"), Classification::Duplicate(0));
    let task = registry.task(0);
    assert_eq!(task.key, "good morning");
    assert_eq!(task.prompt, "Translate this into Romanian:\nGood Morning\n\nRomanian:\n");
}

#[test]
fn header_row_is_verbatim_whatever_the_overrides() {
    let table = cat_table();
    let mut registry = Registry::new();
    assert_eq!(registry.classify(&table, at(0, 3), "Cat"), Classification::Verbatim);
    assert_eq!(registry.classify(&table, at(0, 4), "Unknown"), Classification::Verbatim);
    assert_eq!(registry.len(), 0);
}

#[test]
fn blank_text_is_verbatim() {
    let table = cat_table();
    let mut registry = Registry::new();
    assert_eq!(registry.classify(&table, at(4, 0), ""), Classification::Verbatim);
    assert_eq!(registry.classify(&table, at(4, 1), " \t\n "), Classification::Verbatim);
    assert_eq!(registry.len(), 0);
}

#[test]
fn tasks_stand_in_order_of_discovery() {
    let table = Dictionary::new();
    let mut registry = Registry::new();
    assert_eq!(registry.classify(&table, at(1, 0), "zebra"), Classification::New(0));
    assert_eq!(registry.classify(&table, at(1, 1), "apple"), Classification::New(1));
    assert_eq!(registry.classify(&table, at(1, 2), "mango"), Classification::New(2));
    assert_eq!(registry.classify(&table, at(2, 0), "Apple"), Classification::Duplicate(1));
    assert_eq!(registry.classify(&table, at(2, 1), "ZEBRA"), Classification::Duplicate(0));
    assert_eq!(registry.len(), 3);
    assert_eq!(registry.task(0).key, "zebra");
    assert_eq!(registry.task(1).key, "apple");
    assert_eq!(registry.task(2).key, "mango");
    assert_eq!(registry.find("mango"), Some(2));
    assert_eq!(registry.find("kiwi"), None);
    assert_eq!(registry.task(1).locations, vec![at(1, 1), at(2, 0)]);
}

#[test]
fn new_task_carries_the_hints_of_its_key() {
    let table = cat_table();
    let mut registry = Registry::new();
    assert_eq!(registry.classify(&table, at(1, 0), "Black Cat"), Classification::New(0));
    assert_eq!(
        registry.task(0).prompt,
        "Considering the following translations:\ncat \u{2013} pisic\u{103}\n\nTranslate this into Romanian:\nBlack Cat\n\nRomanian:\n"
    );
}

#[test]
fn scan_settles_copies_and_overrides_and_registers_the_rest() {
    let table = cat_table();
    let cells = vec![
        text(0, 0, " Name "),
        text(0, 1, "Cat"),
        text(1, 0, "Cat"),
        text(1, 1, "Hello"),
        SourceCell { location: at(2, 0), value: CellValue::Empty },
        SourceCell { location: at(2, 1), value: CellValue::Other },
        text(3, 0, "   "),
        text(3, 1, "hello "),
        text(4, 0, "World"),
    ];
    let result = scan(&cells, &table);
    assert_eq!(
        result.writes,
        vec![
            write(0, 0, " Name "),
            write(0, 1, "Cat"),
            write(1, 0, "pisic\u{103}"),
            write(3, 0, "   "),
        ]
    );
    assert_eq!(result.advanced, 6);
    assert_eq!(result.registry.len(), 2);
    assert_eq!(result.registry.task(0).key, "hello");
    assert_eq!(result.registry.task(0).locations, vec![at(1, 1), at(3, 1)]);
    assert_eq!(result.registry.task(1).key, "world");
    assert_eq!(result.registry.task(1).locations, vec![at(4, 0)]);
}

#[test]
fn scan_of_nothing_leaves_nothing() {
    let result = scan(&Vec::new(), &Dictionary::new());
    assert_eq!(result.writes, Vec::new());
    assert_eq!(result.advanced, 0);
    assert_eq!(result.registry.len(), 0);
}

#[test]
fn every_textual_location_is_written_once_when_all_succeed() {
    let table = cat_table();
    let mut cells = Vec::new();
    let words = ["Cat", "Dog", "dog", "", "Bird", "CAT", "bird ", "Fish"];
    for row in 0..6u32 {
        for column in 0..4u16 {
            let word = words[(row as usize * 4 + column as usize) % words.len()];
            cells.push(text(row, column, word));
        }
    }
    let result = scan(&cells, &table);
    let mut written: Vec<CellLocation> = result.writes.iter().map(|w| w.location).collect();
    let mut progress = result.advanced;
    for place in 0..result.registry.len() {
        let key = result.registry.task(place).key.clone();
        match collect(&result.registry, &translated(&key, "done")) {
            Collected::Writes(writes) => {
                progress += writes.len();
                for w in writes {
                    assert_eq!(w.text, "done");
                    written.push(w.location);
                }
            }
            Collected::Report(line) => panic!("unexpected report: {}", line),
        }
    }
    assert_eq!(progress, cells.len());
    assert_eq!(written.len(), cells.len());
    for cell in &cells {
        assert_eq!(written.iter().filter(|l| **l == cell.location).count(), 1);
    }
}

#[test]
fn service_error_is_reported_and_other_tasks_go_on() {
    let table = Dictionary::new();
    let cells = vec![text(1, 0, "Hello"), text(1, 1, "World"), text(2, 0, "hello")];
    let result = scan(&cells, &table);
    let failed = TranslationOutcome::Failed {
        key: "hello".to_string(),
        reason: Failure::Service("rate limited".to_string()),
    };
    assert_eq!(
        collect(&result.registry, &failed),
        Collected::Report("hello: rate limited".to_string())
    );
    assert_eq!(
        collect(&result.registry, &translated("world", "lume")),
        Collected::Writes(vec![write(1, 1, "lume")])
    );
}

#[test]
fn outcome_for_unknown_key_writes_nothing() {
    let result = scan(&vec![text(1, 0, "Hello")], &Dictionary::new());
    assert_eq!(
        collect(&result.registry, &translated("goodbye", "pa")),
        Collected::Writes(Vec::new())
    );
}

#[test]
fn missing_candidate_is_reported_in_its_own_words() {
    let result = scan(&vec![text(1, 0, "Hello")], &Dictionary::new());
    let failed =
        TranslationOutcome::Failed { key: "hello".to_string(), reason: Failure::NoCandidate };
    assert_eq!(
        collect(&result.registry, &failed),
        Collected::Report("hello: No choice received".to_string())
    );
}
