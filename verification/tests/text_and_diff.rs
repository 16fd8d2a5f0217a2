use fmt_engine::diff::{AtomEdit, FmtDiff, TextRange};
use fmt_engine::dsl::RuleName;
use fmt_engine::text::{
    contains_newline, copy_bytes, count_leading_spaces, line_indent_at, make_blank, newline_count,
    same_bytes, saturating_sum, trailing_width,
};

fn edit(start: usize, end: usize, insert: &str) -> AtomEdit {
    AtomEdit { delete: TextRange { start, end }, insert: insert.as_bytes().to_vec(), reason: None }
}

#[test]
fn line_breaks_are_found_and_counted() {
    assert!(!contains_newline(b""));
    assert!(!contains_newline(b"  \t"));
    assert!(contains_newline(b" \n"));
    assert_eq!(newline_count(b""), 0);
    assert_eq!(newline_count(b"\n \n\n  "), 3);
    assert_eq!(newline_count(b"ab"), 0);
}

#[test]
fn trailing_width_counts_behind_the_last_line_break() {
    assert_eq!(trailing_width(b""), 0);
    assert_eq!(trailing_width(b"   "), 3);
    assert_eq!(trailing_width(b"\n"), 0);
    assert_eq!(trailing_width(b"  \n\n    "), 4);
    assert_eq!(trailing_width(b"\nab c"), 4);
}

#[test]
fn blank_text_is_line_breaks_then_spaces() {
    assert_eq!(make_blank(0, 0), b"");
    assert_eq!(make_blank(0, 1), b" ");
    assert_eq!(make_blank(2, 3), b"\n\n   ");
    assert_eq!(make_blank(1, 0), b"\n");
}

#[test]
fn leading_spaces_stop_at_the_first_other_byte() {
    assert_eq!(count_leading_spaces(b""), 0);
    assert_eq!(count_leading_spaces(b"   x "), 3);
    assert_eq!(count_leading_spaces(b"\t "), 0);
    assert_eq!(count_leading_spaces(b"  "), 2);
}

#[test]
fn line_indent_looks_at_the_line_of_the_position() {
    let text = b"a\n    b = c\n  d";
    assert_eq!(line_indent_at(text, 0), 0);
    assert_eq!(line_indent_at(text, 1), 0);
    assert_eq!(line_indent_at(text, 2), 0);
    assert_eq!(line_indent_at(text, 4), 2);
    assert_eq!(line_indent_at(text, 6), 4);
    assert_eq!(line_indent_at(text, 11), 4);
    assert_eq!(line_indent_at(text, 15), 2);
}

#[test]
fn sums_stop_at_the_largest_value() {
    assert_eq!(saturating_sum(2, 3), 5);
    assert_eq!(saturating_sum(usize::MAX, 0), usize::MAX);
    assert_eq!(saturating_sum(usize::MAX - 1, 1), usize::MAX);
    assert_eq!(saturating_sum(usize::MAX - 1, 2), usize::MAX);
    assert_eq!(saturating_sum(usize::MAX, usize::MAX), usize::MAX);
}

#[test]
fn bytes_are_copied_and_compared() {
    assert_eq!(copy_bytes(b"a b"), b"a b");
    assert_eq!(copy_bytes(b""), b"");
    assert!(same_bytes(b"", b""));
    assert!(same_bytes(b"\n  ", b"\n  "));
    assert!(!same_bytes(b"\n  ", b"\n "));
    assert!(!same_bytes(b"ab", b"ac"));
}

#[test]
fn edits_apply_from_left_to_right() {
    let diff = FmtDiff::from_edits(vec![edit(0, 0, ">"), edit(1, 3, ""), edit(3, 3, "--"), edit(5, 6, "!")]);
    assert_eq!(diff.len(), 4);
    assert!(!diff.is_empty());
    assert_eq!(diff.apply(b"abcdef").unwrap(), b">a--de!");
}

#[test]
fn empty_edit_list_changes_nothing() {
    let diff = FmtDiff::new();
    assert!(diff.is_empty());
    assert_eq!(diff.len(), 0);
    assert_eq!(diff.apply(b"abc").unwrap(), b"abc");
    assert_eq!(diff.apply(b"").unwrap(), b"");
}

#[test]
fn overlapping_or_stray_edits_are_not_applied() {
    let overlapping = FmtDiff::from_edits(vec![edit(0, 2, "x"), edit(1, 3, "y")]);
    assert_eq!(overlapping.apply(b"abcd"), None);
    let unordered = FmtDiff::from_edits(vec![edit(2, 3, "x"), edit(0, 1, "y")]);
    assert_eq!(unordered.apply(b"abcd"), None);
    let beyond = FmtDiff::from_edits(vec![edit(3, 5, "x")]);
    assert_eq!(beyond.apply(b"abcd"), None);
    let backwards = FmtDiff::from_edits(vec![edit(3, 2, "x")]);
    assert_eq!(backwards.apply(b"abcd"), None);
    let touching = FmtDiff::from_edits(vec![edit(0, 2, "x"), edit(2, 2, "y"), edit(2, 4, "z")]);
    assert_eq!(touching.apply(b"abcd").unwrap(), b"xyz");
}

#[test]
fn replace_appends_an_edit_with_its_reason() {
    let mut diff = FmtDiff::new();
    diff.replace(TextRange { start: 1, end: 2 }, b" ".to_vec(), Some(RuleName(4)));
    diff.push(edit(3, 3, "\n"));
    assert_eq!(
        diff.edits(),
        &vec![
            AtomEdit {
                delete: TextRange { start: 1, end: 2 },
                insert: b" ".to_vec(),
                reason: Some(RuleName(4)),
            },
            edit(3, 3, "\n"),
        ]
    );
    assert_eq!(diff.apply(b"a\t b").unwrap(), b"a  \nb");
}
