use fmt_engine::diff::{AtomEdit, TextRange};
use fmt_engine::dsl::{
    IndentAction, IndentDsl, IndentRule, RuleName, SpaceLoc, SpaceValue, SpacingDsl, SpacingRule,
};
use fmt_engine::engine::fmt_model::{is_semantic_newline, BlockPosition, FmtModel};
use fmt_engine::engine::indentation::{
    anchor_column, apply_indentation, default_indent, default_target, resolved_indent, INDENT_SIZE,
};
use fmt_engine::engine::spacing::{apply_spacing, ensure_space};
use fmt_engine::engine::{fixes, FormatError};
use fmt_engine::pattern::{
    contains_kind, has_ancestor_of, is_first_sibling, is_last_sibling, same_parent, Pattern,
    PatternSet, SiblingPosition,
};
use fmt_engine::tree::{SyntaxTree, TreeBuilder};

const ROOT: u16 = 76;
const LIST: u16 = 69;
const PAREN: u16 = 72;
const OPEN: u16 = 14;
const CLOSE: u16 = 15;
const IDENT: u16 = 45;
const WS: u16 = 2;
const COMMENT: u16 = 0;

/// `[ a\n (b)  c ]` as root > list > ["[", ws, a, ws, paren > ["(", b, ")"], ws, c, ws, "]"].
/// Indices: 0 root, 1 list, 2 "[", 3 ws, 4 a, 5 ws, 6 paren, 7 "(", 8 b, 9 ")", 10 ws, 11 c,
/// 12 ws, 13 "]".
fn sample() -> SyntaxTree {
    let mut b = TreeBuilder::new();
    b.start_node(ROOT).unwrap();
    b.start_node(LIST).unwrap();
    b.token(OPEN, b"[").unwrap();
    b.token(WS, b" ").unwrap();
    b.token(IDENT, b"a").unwrap();
    b.token(WS, b"\n ").unwrap();
    b.start_node(PAREN).unwrap();
    b.token(24, b"(").unwrap();
    b.token(IDENT, b"b").unwrap();
    b.token(25, b")").unwrap();
    b.finish_node().unwrap();
    b.token(WS, b"  ").unwrap();
    b.token(IDENT, b"c").unwrap();
    b.token(WS, b" ").unwrap();
    b.token(CLOSE, b"]").unwrap();
    b.finish_node().unwrap();
    b.finish_node().unwrap();
    b.finish().unwrap()
}

fn of_kind(kind: u16) -> Pattern {
    Pattern { kinds: Some(vec![kind]), ..Pattern::any() }
}

#[test]
fn pattern_without_constraints_matches_everything() {
    let tree = sample();
    let any = Pattern::any();
    for i in 0..tree.len() {
        assert!(any.matches(&tree, i));
    }
}

#[test]
fn pattern_tests_kind_parent_and_ancestors() {
    let tree = sample();
    assert!(of_kind(IDENT).matches(&tree, 4));
    assert!(!of_kind(IDENT).matches(&tree, 2));
    let in_list = Pattern { parent_kinds: Some(vec![LIST]), ..of_kind(IDENT) };
    assert!(in_list.matches(&tree, 4));
    assert!(!in_list.matches(&tree, 8));
    let under_list = Pattern { ancestor_kinds: Some(vec![LIST]), ..of_kind(IDENT) };
    assert!(under_list.matches(&tree, 4));
    assert!(under_list.matches(&tree, 8));
    let under_paren = Pattern { ancestor_kinds: Some(vec![PAREN, 99]), ..Pattern::any() };
    assert!(under_paren.matches(&tree, 8));
    assert!(!under_paren.matches(&tree, 6));
    assert!(!under_paren.matches(&tree, 11));
    let with_parent = Pattern { parent_kinds: Some(vec![ROOT]), ..Pattern::any() };
    assert!(with_parent.matches(&tree, 1));
    assert!(!with_parent.matches(&tree, 0));
}

#[test]
fn pattern_tests_place_among_siblings() {
    let tree = sample();
    let at = |position| Pattern { position, parent_kinds: Some(vec![LIST]), ..Pattern::any() };
    assert!(at(SiblingPosition::First).matches(&tree, 2));
    assert!(!at(SiblingPosition::First).matches(&tree, 4));
    assert!(at(SiblingPosition::NotFirst).matches(&tree, 4));
    assert!(!at(SiblingPosition::NotFirst).matches(&tree, 2));
    assert!(at(SiblingPosition::Last).matches(&tree, 13));
    assert!(!at(SiblingPosition::Last).matches(&tree, 11));
    assert!(at(SiblingPosition::NotLast).matches(&tree, 11));
    assert!(!at(SiblingPosition::NotLast).matches(&tree, 13));
    // Whitespace is no sibling: `a` is the first child behind `[` only
    // because `[` is there, and the root has no siblings at all.
    assert!(is_first_sibling(&tree, 0) && is_last_sibling(&tree, 0));
    assert!(is_first_sibling(&tree, 7) && !is_last_sibling(&tree, 7));
    assert!(!is_first_sibling(&tree, 9) && is_last_sibling(&tree, 9));
    assert!(is_first_sibling(&tree, 1) && is_last_sibling(&tree, 1));
}

#[test]
fn pattern_tests_token_text() {
    let tree = sample();
    let named = |text: &[u8]| Pattern { text: Some(text.to_vec()), ..Pattern::any() };
    assert!(named(b"a").matches(&tree, 4));
    assert!(!named(b"a").matches(&tree, 8));
    assert!(!named(b"ab").matches(&tree, 4));
    // Nodes have no text of their own to compare.
    assert!(!named(b"(b)").matches(&tree, 6));
}

#[test]
fn helpers_of_the_matcher() {
    let tree = sample();
    assert!(contains_kind(&vec![1, 5, 9], 5));
    assert!(!contains_kind(&vec![1, 5, 9], 4));
    assert!(!contains_kind(&vec![], 4));
    assert!(has_ancestor_of(&tree, 8, &vec![ROOT]));
    assert!(!has_ancestor_of(&tree, 0, &vec![ROOT]));
    assert!(!has_ancestor_of(&tree, 4, &vec![PAREN]));
    assert!(same_parent(None, None));
    assert!(same_parent(Some(3), Some(3)));
    assert!(!same_parent(Some(3), Some(4)));
    assert!(!same_parent(None, Some(0)));
}

#[test]
fn pattern_set_lists_matches_in_declaration_order() {
    let tree = sample();
    let patterns = vec![of_kind(OPEN), of_kind(IDENT), Pattern::any(), of_kind(IDENT)];
    let mut set = PatternSet::new();
    for p in &patterns {
        set.push(p);
    }
    assert_eq!(set.len(), 4);
    assert_eq!(set.matching(&tree, 4), vec![1, 2, 3]);
    assert_eq!(set.matching(&tree, 2), vec![0, 2]);
    assert_eq!(set.matching(&tree, 6), vec![2]);
    assert!(set.matches_any(&tree, 6));
    let empty = PatternSet::new();
    assert_eq!(empty.matching(&tree, 4), Vec::<usize>::new());
    assert!(!empty.matches_any(&tree, 4));
}

#[test]
fn rule_sets_hand_out_their_patterns() {
    let tree = sample();
    let spacing = SpacingDsl {
        rules: vec![
            SpacingRule { name: None, pattern: of_kind(OPEN), loc: SpaceLoc::After, value: SpaceValue::NoSpace },
            SpacingRule { name: None, pattern: of_kind(IDENT), loc: SpaceLoc::Before, value: SpaceValue::Single },
        ],
    };
    assert_eq!(spacing.pattern_set().matching(&tree, 4), vec![1]);
    let indent = IndentDsl {
        rules: vec![IndentRule { name: None, pattern: of_kind(CLOSE), action: IndentAction::Offset(0) }],
        anchors: vec![of_kind(LIST), of_kind(PAREN)],
    };
    assert_eq!(indent.pattern_set().matching(&tree, 13), vec![0]);
    assert_eq!(indent.anchor_set().matching(&tree, 6), vec![1]);
    assert_eq!(indent.anchor_set().len(), 2);
}

#[test]
fn overlay_starts_as_the_source() {
    let tree = sample();
    let mut model = FmtModel::new(&tree);
    assert_eq!(model.tree().text(), b"[ a\n (b)  c ]");
    for j in 0..=tree.token_count() {
        assert_eq!(model.block_text(j), tree.space_text(j));
    }
    assert_eq!(model.block_for(4, BlockPosition::Before), 1);
    assert_eq!(model.block_for(4, BlockPosition::After), 2);
    assert_eq!(model.block_for(6, BlockPosition::Before), 2);
    assert_eq!(model.block_for(6, BlockPosition::After), 5);
    assert_eq!(model.block_for(0, BlockPosition::Before), 0);
    assert_eq!(model.block_for(0, BlockPosition::After), 7);
    assert_eq!(model.block_text(2), b"\n ");
    assert!(model.has_newline(2));
    assert!(!model.has_newline(1));
    assert!(model.into_diff().is_empty());
}

#[test]
fn overlay_reports_only_runs_that_differ() {
    let tree = sample();
    let mut model = FmtModel::new(&tree);
    model.set_text(1, b"".to_vec(), Some(RuleName(1)));
    model.set_text(5, b"\n".to_vec(), None);
    model.set_text(5, b"  ".to_vec(), Some(RuleName(2)));
    model.set_text(6, b"\t".to_vec(), Some(RuleName(3)));
    model.set_text(6, b" ".to_vec(), None);
    model.set_indent(2, 4, None);
    let diff = model.into_diff();
    assert_eq!(
        diff.edits(),
        &vec![
            AtomEdit {
                delete: TextRange { start: 1, end: 2 },
                insert: b"".to_vec(),
                reason: Some(RuleName(1)),
            },
            AtomEdit { delete: TextRange { start: 3, end: 5 }, insert: b"\n    ".to_vec(), reason: None },
        ]
    );
}

#[test]
fn set_indent_keeps_the_line_breaks() {
    let mut b = TreeBuilder::new();
    b.start_node(ROOT).unwrap();
    b.token(IDENT, b"a").unwrap();
    b.token(WS, b" \n\t\n      ").unwrap();
    b.token(IDENT, b"b").unwrap();
    b.finish_node().unwrap();
    let tree = b.finish().unwrap();
    let mut model = FmtModel::new(&tree);
    model.set_indent(1, 2, Some(RuleName(8)));
    assert_eq!(model.block_text(1), b"\n\n  ");
    model.set_indent(0, 3, None);
    assert_eq!(model.block_text(0), b"   ");
}

#[test]
fn columns_are_measured_in_the_overlay() {
    let tree = sample();
    let mut model = FmtModel::new(&tree);
    assert_eq!(model.column_of(0), 0);
    assert_eq!(model.column_of(1), 2);
    assert_eq!(model.column_of(2), 1);
    assert_eq!(model.column_of(4), 3);
    assert_eq!(model.column_of(5), 6);
    assert_eq!(model.column_of(7), 9);
    model.set_text(2, b"   ".to_vec(), None);
    assert_eq!(model.column_of(2), 6);
    assert_eq!(model.column_of(7), 14);
    model.set_indent(0, 5, None);
    assert_eq!(model.column_of(0), 5);
    assert_eq!(model.column_of(7), 19);
}

#[test]
fn column_behind_a_token_with_line_breaks() {
    let mut b = TreeBuilder::new();
    b.start_node(ROOT).unwrap();
    b.token(COMMENT, b"/* a\n  b */").unwrap();
    b.token(WS, b" ").unwrap();
    b.token(IDENT, b"x").unwrap();
    b.finish_node().unwrap();
    let tree = b.finish().unwrap();
    let model = FmtModel::new(&tree);
    assert_eq!(model.column_of(1), 7);
    assert_eq!(model.column_of(2), 8);
}

#[test]
fn raw_edits_must_lie_in_their_token_and_come_in_order() {
    let tree = sample();
    let mut model = FmtModel::new(&tree);
    let edit = |start, end, text: &[u8]| AtomEdit {
        delete: TextRange { start, end },
        insert: text.to_vec(),
        reason: None,
    };
    // Token 3 is `b`, bytes 6..7.
    assert!(!model.raw_edit(3, edit(5, 6, b"x")));
    assert!(!model.raw_edit(3, edit(6, 8, b"x")));
    assert!(!model.raw_edit(3, edit(7, 6, b"x")));
    assert!(!model.raw_edit(7, edit(6, 7, b"x")));
    assert!(model.raw_edit(3, edit(6, 6, b"<")));
    assert!(model.raw_edit(3, edit(6, 7, b"B")));
    assert!(!model.raw_edit(3, edit(6, 6, b"!")));
    assert!(model.raw_edit(3, edit(7, 7, b">")));
    assert!(model.raw_edit(1, edit(2, 3, b"A")));
    let diff = model.into_diff();
    assert_eq!(
        diff.edits(),
        &vec![edit(2, 3, b"A"), edit(6, 6, b"<"), edit(6, 7, b"B"), edit(7, 7, b">")]
    );
    assert_eq!(diff.apply(tree.text()).unwrap(), b"[ A\n (<B>)  c ]");
}

#[test]
fn rendered_text_knows_the_indent_of_every_line() {
    let tree = sample();
    let mut model = FmtModel::new(&tree);
    model.set_indent(2, 6, None);
    let rendered = model.render();
    assert_eq!(rendered.line_indent_before(0), 0);
    assert_eq!(rendered.line_indent_before(1), 0);
    assert_eq!(rendered.line_indent_before(2), 6);
    assert_eq!(rendered.line_indent_before(5), 6);
    assert_eq!(rendered.line_indent_before(7), 6);
}

fn commented() -> SyntaxTree {
    let mut b = TreeBuilder::new();
    b.start_node(ROOT).unwrap();
    b.token(COMMENT, b"# one").unwrap();
    b.token(WS, b"\n").unwrap();
    b.token(COMMENT, b"/* two */").unwrap();
    b.token(WS, b"\n").unwrap();
    b.token(IDENT, b"x").unwrap();
    b.token(WS, b" ").unwrap();
    b.token(COMMENT, b"# three").unwrap();
    b.finish_node().unwrap();
    b.finish().unwrap()
}

#[test]
fn line_break_behind_a_line_comment_carries_meaning() {
    let tree = commented();
    assert!(!is_semantic_newline(&tree, 0));
    assert!(is_semantic_newline(&tree, 1));
    assert!(!is_semantic_newline(&tree, 2));
    assert!(!is_semantic_newline(&tree, 3));
    assert!(!is_semantic_newline(&tree, 4));
    let mut model = FmtModel::new(&tree);
    model.set_text(1, b" ".to_vec(), None);
    assert_eq!(model.block_text(1), b"\n");
    model.set_text(1, b"\n\n".to_vec(), None);
    assert_eq!(model.block_text(1), b"\n\n");
    model.set_text(2, b" ".to_vec(), None);
    assert_eq!(model.block_text(2), b" ");
}

#[test]
fn every_directive_does_what_it_says() {
    let tree = sample();
    let run = |value: SpaceValue, j: usize| -> Vec<u8> {
        let mut model = FmtModel::new(&tree);
        ensure_space(&mut model, j, value, None);
        model.block_text(j).to_vec()
    };
    // Run 1 is " ", run 2 is "\n ", run 5 is "  ", run 0 is "".
    assert_eq!(run(SpaceValue::Single, 2), b" ");
    assert_eq!(run(SpaceValue::Single, 0), b" ");
    assert_eq!(run(SpaceValue::NoSpace, 2), b"");
    assert_eq!(run(SpaceValue::NoSpace, 5), b"");
    assert_eq!(run(SpaceValue::SingleOptionalNewline, 2), b"\n ");
    assert_eq!(run(SpaceValue::SingleOptionalNewline, 5), b" ");
    assert_eq!(run(SpaceValue::NoSpaceOptionalNewline, 2), b"\n ");
    assert_eq!(run(SpaceValue::NoSpaceOptionalNewline, 5), b"");
    assert_eq!(run(SpaceValue::Newlines(1), 2), b"\n ");
    assert_eq!(run(SpaceValue::Newlines(2), 2), b"\n\n ");
    assert_eq!(run(SpaceValue::Newlines(1), 5), b"\n  ");
    assert_eq!(run(SpaceValue::Newlines(0), 5), b"  ");
    assert_eq!(run(SpaceValue::Newlines(3), 0), b"\n\n\n");
}

#[test]
fn spacing_rule_acts_on_the_side_it_names() {
    let tree = sample();
    let text_after = |loc: SpaceLoc| -> Vec<u8> {
        let rule = SpacingRule { name: Some(RuleName(1)), pattern: of_kind(PAREN), loc, value: SpaceValue::NoSpace };
        let mut model = FmtModel::new(&tree);
        rule.apply(6, &mut model);
        model.into_diff().apply(tree.text()).unwrap()
    };
    assert_eq!(text_after(SpaceLoc::Before), b"[ a(b)  c ]");
    assert_eq!(text_after(SpaceLoc::After), b"[ a\n (b)c ]");
    assert_eq!(text_after(SpaceLoc::Around), b"[ a(b)c ]");
}

#[test]
fn spacing_pass_visits_in_depth_first_order() {
    let tree = sample();
    let dsl = SpacingDsl {
        rules: vec![
            SpacingRule { name: Some(RuleName(1)), pattern: of_kind(IDENT), loc: SpaceLoc::After, value: SpaceValue::Newlines(1) },
            SpacingRule { name: Some(RuleName(2)), pattern: of_kind(CLOSE), loc: SpaceLoc::Before, value: SpaceValue::Single },
            SpacingRule { name: Some(RuleName(3)), pattern: of_kind(25), loc: SpaceLoc::Before, value: SpaceValue::NoSpace },
        ],
    };
    let mut model = FmtModel::new(&tree);
    apply_spacing(&dsl, &mut model);
    // The run between `b` and `)` is first broken by rule 1 at `b` and then
    // emptied by rule 3 at `)`; the one between `c` and `]` is first broken
    // at `c` and then set to one space at `]`.
    assert_eq!(model.block_text(4), b"");
    assert_eq!(model.block_text(6), b" ");
    assert_eq!(model.block_text(2), b"\n ");
    assert_eq!(model.into_diff().apply(tree.text()).unwrap(), b"[ a\n (b)  c ]");
}

#[test]
fn resolved_indent_is_inherited_until_a_line_begins() {
    let tree = sample();
    let model = FmtModel::new(&tree);
    let none = PatternSet::new();
    // The paren begins the second line, in column 1.
    assert_eq!(resolved_indent(&model, &none, 6), 1);
    assert_eq!(resolved_indent(&model, &none, 8), 1);
    assert_eq!(resolved_indent(&model, &none, 11), 0);
    assert_eq!(resolved_indent(&model, &none, 0), 0);
    assert_eq!(default_target(&model, &none, 8), 1 + INDENT_SIZE);
    assert_eq!(default_target(&model, &none, 6), INDENT_SIZE);
    assert_eq!(default_target(&model, &none, 0), 0);
    assert_eq!(anchor_column(&model, &none, 8), None);
    let list = of_kind(LIST);
    let ident = of_kind(IDENT);
    let mut anchors = PatternSet::new();
    anchors.push(&list);
    anchors.push(&ident);
    assert_eq!(anchor_column(&model, &anchors, 8), Some(0));
    assert_eq!(anchor_column(&model, &anchors, 1), None);
    // `c` is an anchor itself and stands in column 6 of its line.
    assert_eq!(resolved_indent(&model, &anchors, 11), 6);
}

#[test]
fn indentation_acts_only_where_a_line_begins() {
    let tree = sample();
    let mut model = FmtModel::new(&tree);
    let dsl = IndentDsl {
        rules: vec![IndentRule {
            name: Some(RuleName(5)),
            pattern: of_kind(PAREN),
            action: IndentAction::Offset(7),
        }],
        anchors: vec![],
    };
    assert_eq!(apply_indentation(&dsl, &mut model), Ok(()));
    assert_eq!(model.block_text(2), b"\n       ");
    assert_eq!(model.block_text(1), b" ");
    assert_eq!(model.block_text(5), b"  ");
    let none = PatternSet::new();
    default_indent(6, &mut model, &none);
    assert_eq!(model.block_text(2), b"\n  ");
    let rule = IndentRule { name: None, pattern: Pattern::any(), action: IndentAction::Offset(3) };
    rule.apply(0, &mut model, &none);
    assert_eq!(model.block_text(0), b"   ");
}

#[test]
fn indentation_stops_at_the_first_conflict() {
    let tree = sample();
    let mut model = FmtModel::new(&tree);
    let dsl = IndentDsl {
        rules: vec![
            IndentRule { name: None, pattern: of_kind(LIST), action: IndentAction::Offset(1) },
            IndentRule { name: None, pattern: of_kind(PAREN), action: IndentAction::Offset(1) },
            IndentRule { name: None, pattern: Pattern::any(), action: IndentAction::Anchor },
        ],
        anchors: vec![],
    };
    assert_eq!(
        apply_indentation(&dsl, &mut model),
        Err(FormatError::ConflictingIndentRules { element: 6, first: 1, second: 2 })
    );
}

#[test]
fn fix_ups_touch_literals_only() {
    let tree = sample();
    let mut model = FmtModel::new(&tree);
    model.set_indent(2, 9, None);
    fixes::apply_fixes(&mut model);
    let diff = model.into_diff();
    assert_eq!(diff.len(), 1);
    assert_eq!(diff.apply(tree.text()).unwrap(), b"[ a\n         (b)  c ]");
}

#[test]
fn shift_lines_moves_every_line_in_the_token() {
    let mut b = TreeBuilder::new();
    b.start_node(ROOT).unwrap();
    b.token(51, b"a\n  b\n\n    c\n").unwrap();
    b.finish_node().unwrap();
    let tree = b.finish().unwrap();
    let shifted = |grow: usize, shrink: usize| -> Vec<u8> {
        let mut model = FmtModel::new(&tree);
        fixes::shift_lines(&mut model, 0, grow, shrink);
        model.into_diff().apply(tree.text()).unwrap()
    };
    assert_eq!(shifted(0, 0), b"a\n  b\n\n    c\n");
    assert_eq!(shifted(3, 0), b"a\n     b\n\n       c\n   ");
    assert_eq!(shifted(0, 2), b"a\nb\n\n  c\n");
    assert_eq!(shifted(0, 3), b"a\nb\n\n c\n");
    assert_eq!(shifted(7, 4), b"a\n     b\n\n       c\n   ");
    assert_eq!(shifted(1, 3), b"a\nb\n\n  c\n");
    assert_eq!(shifted(5, 5), b"a\n  b\n\n    c\n");
}
