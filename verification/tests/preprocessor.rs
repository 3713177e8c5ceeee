use base_db::inputs::DefineSet;
use base_db::shader_processor::process;

#[test]
fn plain_text_is_copied_unchanged() {
    let defines = DefineSet::new();
    let out = process("fn main() {}\nlet x = 1;\n", &defines);
    assert_eq!(out.text.as_str(), "fn main() {}\nlet x = 1;\n");
    assert!(out.unconfigured.is_empty());
    assert!(out.occurrences.is_empty());
}

#[test]
fn process_is_idempotent_on_unchanged_inputs() {
    let mut defines = DefineSet::new();
    defines.insert(String::from("FOO"));
    let src = "a\n#ifdef FOO\nbody\n#endif\n#import util\nz\n";
    let first = process(src, &defines);
    let second = process(src, &defines);
    assert_eq!(first.text, second.text);
    assert_eq!(first.unconfigured, second.unconfigured);
    assert_eq!(first.occurrences, second.occurrences);
}

#[test]
fn define_insertion_order_does_not_matter() {
    let src = "#ifdef A\none\n#endif\n#ifdef B\ntwo\n#endif\n#ifdef C\nthree\n#endif\n";
    let mut d1 = DefineSet::new();
    d1.insert(String::from("A"));
    d1.insert(String::from("B"));
    let mut d2 = DefineSet::new();
    d2.insert(String::from("B"));
    d2.insert(String::from("A"));
    d2.insert(String::from("B"));
    let first = process(src, &d1);
    let second = process(src, &d2);
    assert_eq!(first.text, second.text);
    assert_eq!(first.unconfigured, second.unconfigured);
    assert_eq!(first.occurrences, second.occurrences);
}

#[test]
fn guarded_block_elided_without_define() {
    let src = "x\n#ifdef FOO\nhidden\n#endif\ny\n";
    let out = process(src, &DefineSet::new());
    assert_eq!(out.text.as_str(), "x\ny\n");
    assert_eq!(out.unconfigured.len(), 1);
    assert_eq!(out.unconfigured[0].def.as_str(), "FOO");
    assert_eq!(out.unconfigured[0].range.start, 2);
    assert_eq!(out.unconfigured[0].range.end, 27);
}

#[test]
fn guarded_block_kept_with_define() {
    let mut defines = DefineSet::new();
    defines.insert(String::from("FOO"));
    let out = process("x\n#ifdef FOO\nkept\n#endif\ny\n", &defines);
    assert_eq!(out.text.as_str(), "x\nkept\ny\n");
    assert_eq!(out.unconfigured.len(), 0);
}

#[test]
fn import_directive_recorded_in_processed_coordinates() {
    let src = "#ifdef GONE\nxxxx\n#endif\nhead\n#import util\ntail\n";
    let out = process(src, &DefineSet::new());
    assert_eq!(out.text.as_str(), "head\n#import util\ntail\n");
    assert_eq!(out.occurrences.len(), 1);
    assert_eq!(out.occurrences[0].identifier.as_str(), "util");
    assert_eq!(out.occurrences[0].range.start, 5);
    assert_eq!(out.occurrences[0].range.end, 17);
}

#[test]
fn ranges_lie_within_bounds_and_siblings_do_not_overlap() {
    let src = "#ifdef A\n1\n#endif\nmid\n#ifdef B\n2\n#endif\n#import x\n#import y\n";
    let out = process(src, &DefineSet::new());
    let n = src.chars().count();
    for u in &out.unconfigured {
        assert!(u.range.start <= u.range.end && u.range.end <= n);
    }
    for w in out.unconfigured.windows(2) {
        assert!(w[0].range.end <= w[1].range.start);
    }
    let pn = out.text.chars().count();
    for o in &out.occurrences {
        assert!(o.range.start <= o.range.end && o.range.end <= pn);
    }
    for w in out.occurrences.windows(2) {
        assert!(w[0].range.end <= w[1].range.start);
    }
    assert_eq!(out.unconfigured.len(), 2);
    assert_eq!(out.occurrences.len(), 2);
}

#[test]
fn unterminated_block_runs_to_end_of_text() {
    let src = "a\n#ifdef X\nrest";
    let out = process(src, &DefineSet::new());
    assert_eq!(out.text.as_str(), "a\n");
    assert_eq!(out.unconfigured.len(), 1);
    assert_eq!(out.unconfigured[0].range.start, 2);
    assert_eq!(out.unconfigured[0].range.end, src.chars().count());
}

#[test]
fn directive_like_text_is_ordinary_source() {
    let src = "#ifdef\n#import\n# if x\n#endif trailing\n";
    let out = process(src, &DefineSet::new());
    assert_eq!(out.text.as_str(), src);
    assert!(out.unconfigured.is_empty());
    assert!(out.occurrences.is_empty());
}

#[test]
fn empty_text_yields_empty_output() {
    let out = process("", &DefineSet::new());
    assert_eq!(out.text.as_str(), "");
    assert!(out.unconfigured.is_empty());
    assert!(out.occurrences.is_empty());
}
