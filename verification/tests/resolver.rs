use base_db::inputs::DefineSet;
use base_db::inputs::ImportTable;
use base_db::resolver::splice;
use base_db::shader_processor::process;
use base_db::shader_processor::ImportOccurrence;
use base_db::util_types::TextRange;

#[test]
fn splice_substitutes_single_occurrence() {
    let text = "A[IMPORT x]B";
    let occurrences = vec![ImportOccurrence {
        range: TextRange::new(1, 11),
        identifier: String::from("x"),
    }];
    let mut table = ImportTable::new();
    table.insert(String::from("x"), String::from("Z"));
    assert_eq!(splice(text, &occurrences, &table).as_str(), "AZB");
}

#[test]
fn splice_without_matching_keys_returns_input_unchanged() {
    let text = "left #import a right";
    let occurrences = vec![ImportOccurrence {
        range: TextRange::new(5, 14),
        identifier: String::from("a"),
    }];
    let empty = ImportTable::new();
    assert_eq!(splice(text, &occurrences, &empty).as_str(), text);

    let none: Vec<ImportOccurrence> = Vec::new();
    let mut table = ImportTable::new();
    table.insert(String::from("a"), String::from("AAA"));
    assert_eq!(splice(text, &none, &table).as_str(), text);
}

#[test]
fn splice_applies_occurrences_in_one_forward_pass() {
    // Substituting the first occurrence changes lengths; the second still
    // lands on its pristine coordinates.
    let src = "#import a\nmid\n#import b\n";
    let mut table = ImportTable::new();
    table.insert(String::from("a"), String::from("LONG-REPLACEMENT"));
    table.insert(String::from("b"), String::from("Z"));
    let out = process(src, &DefineSet::new());
    assert_eq!(out.occurrences.len(), 2);
    let spliced = splice(out.text.as_str(), &out.occurrences, &table);
    assert_eq!(spliced.as_str(), "LONG-REPLACEMENT\nmid\nZ\n");
}

#[test]
fn splice_leaves_unknown_keys_and_replaces_known_ones() {
    let src = "#import known\n#import unknown\n";
    let mut table = ImportTable::new();
    table.insert(String::from("known"), String::from("K"));
    let out = process(src, &DefineSet::new());
    let spliced = splice(out.text.as_str(), &out.occurrences, &table);
    assert_eq!(spliced.as_str(), "K\n#import unknown\n");
}

#[test]
fn later_insert_replaces_earlier_binding() {
    let mut table = ImportTable::new();
    table.insert(String::from("k"), String::from("old"));
    table.insert(String::from("k"), String::from("new"));
    assert_eq!(table.get("k").unwrap().as_str(), "new");
    assert!(table.get("absent").is_none());
    assert!(table.contains_key("k"));
    assert!(!table.contains_key("absent"));
}
