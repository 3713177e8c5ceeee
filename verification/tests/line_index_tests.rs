use base_db::line_index::LineIndex;

#[test]
fn line_starts_of_three_lines() {
    let idx = LineIndex::new("a\nbb\nc");
    assert_eq!(idx.line_starts(), &vec![0, 2, 5]);
}

#[test]
fn lookup_translates_offsets_to_line_and_column() {
    let idx = LineIndex::new("a\nbb\nc");
    assert_eq!(idx.line_col(4), (1, 2));
    assert_eq!(idx.line_col(0), (0, 0));
    assert_eq!(idx.line_col(1), (0, 1));
    assert_eq!(idx.line_col(2), (1, 0));
    assert_eq!(idx.line_col(5), (2, 0));
}

#[test]
fn empty_text_has_a_single_line_start() {
    let idx = LineIndex::new("");
    assert_eq!(idx.line_starts(), &vec![0]);
    assert_eq!(idx.line_col(0), (0, 0));
}

#[test]
fn trailing_line_break_opens_a_new_line() {
    let idx = LineIndex::new("ab\n");
    assert_eq!(idx.line_starts(), &vec![0, 3]);
    assert_eq!(idx.line_col(2), (0, 2));
    assert_eq!(idx.line_col(3), (1, 0));
}
