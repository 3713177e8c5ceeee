use base_db::inputs::DefineSet;
use base_db::inputs::ImportTable;
use base_db::FileId;
use base_db::SourceDatabase;
use base_db::Upcast;

#[test]
fn missing_import_yields_not_found() {
    let mut db = SourceDatabase::new();
    assert!(db.parse_import(String::from("missing")).is_err());
    assert!(db.parse_import_no_preprocessor(String::from("missing")).is_err());
    let mut table = ImportTable::new();
    table.insert(String::from("present"), String::from("p\n"));
    db.set_custom_imports(table);
    assert!(db.parse_import(String::from("missing")).is_err());
    assert!(db.parse_import_no_preprocessor(String::from("missing")).is_err());
    assert!(db.parse_import(String::from("present")).is_ok());
    assert!(db.parse_import_no_preprocessor(String::from("present")).is_ok());
}

#[test]
fn parse_reflects_current_text_and_invalidation_is_precise() {
    let mut db = SourceDatabase::new();
    let f = FileId(1);
    let g = FileId(2);
    db.set_file_text(f, String::from("one\n"));
    db.set_file_text(g, String::from("gee\n"));
    assert_eq!(db.parse(f).source_text(), "one\n");
    assert_eq!(db.parse(g).source_text(), "gee\n");
    let before = db.recomputations();

    // Replacing f's text invalidates f: its next parse recomputes and
    // reflects the new text.
    db.set_file_text(f, String::from("two\n"));
    assert_eq!(db.parse(f).source_text(), "two\n");
    let after_f = db.recomputations();
    assert!(after_f > before);

    // g never depended on f: its cached result is reused, no recomputation.
    assert_eq!(db.parse(g).source_text(), "gee\n");
    assert_eq!(db.recomputations(), after_f);

    // A repeated query for f is cached now, too.
    assert_eq!(db.parse(f).source_text(), "two\n");
    assert_eq!(db.recomputations(), after_f);
}

#[test]
fn full_parse_preprocesses_and_splices() {
    let mut db = SourceDatabase::new();
    let f = FileId(7);
    db.set_file_text(
        f,
        String::from("head\n#ifdef FOO\nhidden\n#endif\n#import util\ntail\n"),
    );
    let mut table = ImportTable::new();
    table.insert(String::from("util"), String::from("fn util() {}"));
    db.set_custom_imports(table);

    let (tree, unconfigured) = db.parse_with_unconfigured(f);
    assert_eq!(tree.source_text(), "head\nfn util() {}\ntail\n");
    assert_eq!(unconfigured.len(), 1);
    assert_eq!(unconfigured[0].def.as_str(), "FOO");
    assert_eq!(unconfigured[0].range.start, 5);
    assert_eq!(unconfigured[0].range.end, 30);

    // Activating the guard keeps the block and invalidates the full parse.
    let mut defines = DefineSet::new();
    defines.insert(String::from("FOO"));
    db.set_shader_defs(defines);
    let (tree2, unconfigured2) = db.parse_with_unconfigured(f);
    assert_eq!(tree2.source_text(), "head\nhidden\nfn util() {}\ntail\n");
    assert_eq!(unconfigured2.len(), 0);
}

#[test]
fn parse_no_preprocessor_bypasses_the_pipeline() {
    let mut db = SourceDatabase::new();
    let f = FileId(3);
    db.set_file_text(f, String::from("#ifdef FOO\nx\n#endif\n"));
    assert_eq!(db.parse_no_preprocessor(f).source_text(), "#ifdef FOO\nx\n#endif\n");
    assert_eq!(db.parse(f).source_text(), "");
}

#[test]
fn parse_import_preprocesses_but_does_not_expand_transitively() {
    let mut db = SourceDatabase::new();
    let mut table = ImportTable::new();
    table.insert(
        String::from("lib"),
        String::from("keep\n#ifdef DBG\ndebug\n#endif\n"),
    );
    table.insert(String::from("a"), String::from("#import b\n"));
    table.insert(String::from("b"), String::from("B\n"));
    db.set_custom_imports(table);

    let p = db.parse_import(String::from("lib")).unwrap();
    assert_eq!(p.source_text(), "keep\n");
    let praw = db.parse_import_no_preprocessor(String::from("lib")).unwrap();
    assert_eq!(praw.source_text(), "keep\n#ifdef DBG\ndebug\n#endif\n");

    // The entry's own import directive is recorded, never spliced here.
    let pa = db.parse_import(String::from("a")).unwrap();
    assert_eq!(pa.source_text(), "#import b\n");
}

#[test]
fn import_parses_are_invalidated_by_their_inputs() {
    let mut db = SourceDatabase::new();
    let mut table = ImportTable::new();
    table.insert(String::from("k"), String::from("#ifdef D\nd\n#endif\nv\n"));
    db.set_custom_imports(table);
    assert_eq!(db.parse_import(String::from("k")).unwrap().source_text(), "v\n");
    let cached = db.recomputations();
    assert_eq!(db.parse_import(String::from("k")).unwrap().source_text(), "v\n");
    assert_eq!(db.recomputations(), cached);

    // A new define set invalidates the preprocessed import parse.
    let mut defines = DefineSet::new();
    defines.insert(String::from("D"));
    db.set_shader_defs(defines);
    assert_eq!(
        db.parse_import(String::from("k")).unwrap().source_text(),
        "d\nv\n"
    );
    assert!(db.recomputations() > cached);

    // The raw import parse ignores the define set and stays cached.
    let praw1 = db.parse_import_no_preprocessor(String::from("k")).unwrap();
    assert_eq!(praw1.source_text(), "#ifdef D\nd\n#endif\nv\n");
    let cached2 = db.recomputations();
    db.set_shader_defs(DefineSet::new());
    let praw2 = db.parse_import_no_preprocessor(String::from("k")).unwrap();
    assert_eq!(praw2.source_text(), "#ifdef D\nd\n#endif\nv\n");
    assert_eq!(db.recomputations(), cached2);
}

#[test]
fn line_index_is_derived_from_file_text_alone() {
    let mut db = SourceDatabase::new();
    let f = FileId(4);
    db.set_file_text(f, String::from("a\nbb\nc"));
    let idx = db.line_index(f);
    assert_eq!(idx.line_starts(), &vec![0, 2, 5]);
    assert_eq!(idx.line_col(4), (1, 2));
    let cached = db.recomputations();

    // Define and import changes do not touch the line index.
    let mut defines = DefineSet::new();
    defines.insert(String::from("X"));
    db.set_shader_defs(defines);
    db.set_custom_imports(ImportTable::new());
    let idx2 = db.line_index(f);
    assert_eq!(idx2.line_starts(), &vec![0, 2, 5]);
    assert_eq!(db.recomputations(), cached);

    // New text rebuilds the index in full.
    db.set_file_text(f, String::from("xyz\nq"));
    let idx3 = db.line_index(f);
    assert_eq!(idx3.line_starts(), &vec![0, 4]);
    assert!(db.recomputations() > cached);
}

#[test]
fn setters_replace_values_wholesale() {
    let mut db = SourceDatabase::new();
    let f = FileId(9);
    db.set_file_text(f, String::from("first"));
    assert_eq!(db.file_text(f).as_str(), "first");
    db.set_file_text(f, String::from("second"));
    assert_eq!(db.file_text(f).as_str(), "second");

    let mut defines = DefineSet::new();
    defines.insert(String::from("A"));
    db.set_shader_defs(defines);
    assert!(db.shader_defs().contains("A"));
    db.set_shader_defs(DefineSet::new());
    assert!(!db.shader_defs().contains("A"));

    let mut table = ImportTable::new();
    table.insert(String::from("k"), String::from("v"));
    db.set_custom_imports(table);
    assert_eq!(db.custom_imports().get("k").unwrap().as_str(), "v");
    db.set_custom_imports(ImportTable::new());
    assert!(db.custom_imports().get("k").is_none());
}

#[test]
fn upcast_hands_out_the_database() {
    let db = SourceDatabase::new();
    let up: &SourceDatabase = db.upcast();
    assert_eq!(up.recomputations(), 0);
}
