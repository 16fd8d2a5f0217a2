use fmt_engine::diff::{AtomEdit, FmtDiff, TextRange};
use fmt_engine::dsl::{
    IndentAction, IndentDsl, IndentRule, RuleName, SpaceLoc, SpaceValue, SpacingDsl, SpacingRule,
};
use fmt_engine::engine::FormatError;
use fmt_engine::pattern::{Pattern, SiblingPosition};
use fmt_engine::tree::{SyntaxTree, TreeBuilder};
use rnix::SyntaxKind::{
    NODE_IDENT, NODE_KEY_VALUE, NODE_LAMBDA, NODE_LIST, NODE_ROOT, TOKEN_ASSIGN, TOKEN_CURLY_B_CLOSE,
    TOKEN_SEMICOLON, TOKEN_SQUARE_B_CLOSE, TOKEN_STRING_CONTENT, TOKEN_STRING_END,
    TOKEN_STRING_START, TOKEN_URI,
};

/// The tree that `rnix` parses from `source`, handed to the library node by
/// node.
fn tree_of(source: &str) -> SyntaxTree {
    let mut builder = TreeBuilder::new();
    for event in rnix::parse(source).node().preorder_with_tokens() {
        match event {
            rnix::WalkEvent::Enter(rnix::NodeOrToken::Node(node)) => {
                builder.start_node(node.kind() as u16).unwrap()
            }
            rnix::WalkEvent::Enter(rnix::NodeOrToken::Token(token)) => {
                builder.token(token.kind() as u16, token.text().as_bytes()).unwrap()
            }
            rnix::WalkEvent::Leave(rnix::NodeOrToken::Node(_)) => builder.finish_node().unwrap(),
            rnix::WalkEvent::Leave(rnix::NodeOrToken::Token(_)) => {}
        }
    }
    builder.finish().unwrap()
}

fn kinds(list: &[rnix::SyntaxKind]) -> Option<Vec<u16>> {
    Some(list.iter().map(|k| *k as u16).collect())
}

fn pattern(kind: &[rnix::SyntaxKind], parent: &[rnix::SyntaxKind]) -> Pattern {
    Pattern {
        kinds: if kind.is_empty() { None } else { kinds(kind) },
        parent_kinds: if parent.is_empty() { None } else { kinds(parent) },
        ancestor_kinds: None,
        position: SiblingPosition::Any,
        text: None,
    }
}

fn spacing(name: u32, pattern: Pattern, loc: SpaceLoc, value: SpaceValue) -> SpacingRule {
    SpacingRule { name: Some(RuleName(name)), pattern, loc, value }
}

fn indent(name: u32, pattern: Pattern, action: IndentAction) -> IndentRule {
    IndentRule { name: Some(RuleName(name)), pattern, action }
}

fn no_spacing() -> SpacingDsl {
    SpacingDsl { rules: vec![] }
}

fn apply(tree: &SyntaxTree, diff: &FmtDiff) -> String {
    String::from_utf8(diff.apply(tree.text()).unwrap()).unwrap()
}

fn edit(start: usize, end: usize, insert: &str, reason: Option<u32>) -> AtomEdit {
    AtomEdit {
        delete: TextRange { start, end },
        insert: insert.as_bytes().to_vec(),
        reason: reason.map(RuleName),
    }
}

/// Closing brackets stand in the column of the construct they close.
fn closers_at_parent_indent(name: u32) -> IndentRule {
    indent(
        name,
        pattern(&[TOKEN_SQUARE_B_CLOSE, TOKEN_CURLY_B_CLOSE], &[]),
        IndentAction::Offset(0),
    )
}

#[test]
fn spacing_forces_a_newline_and_indentation_follows() {
    let tree = tree_of("[a b]");
    let spacing_dsl = SpacingDsl {
        rules: vec![
            spacing(1, pattern(&[NODE_IDENT], &[NODE_LIST]), SpaceLoc::Before, SpaceValue::Newlines(1)),
            spacing(2, pattern(&[TOKEN_SQUARE_B_CLOSE], &[]), SpaceLoc::Before, SpaceValue::Newlines(1)),
        ],
    };
    let indent_dsl = IndentDsl { rules: vec![closers_at_parent_indent(7)], anchors: vec![] };
    let diff = fmt_engine::engine::format(&spacing_dsl, &indent_dsl, &tree).unwrap();
    assert_eq!(
        diff.edits(),
        &vec![
            edit(1, 1, "\n  ", Some(1)),
            edit(2, 3, "\n  ", Some(1)),
            edit(4, 4, "\n", Some(2)),
        ]
    );
    assert_eq!(apply(&tree, &diff), "[\n  a\n  b\n]");
}

#[test]
fn first_child_is_not_reindented() {
    let tree = tree_of("x:\n  body");
    let first_of_lambda = Pattern {
        position: SiblingPosition::First,
        ..pattern(&[NODE_IDENT], &[NODE_LAMBDA])
    };
    let last_of_lambda = Pattern {
        position: SiblingPosition::Last,
        ..pattern(&[NODE_IDENT], &[NODE_LAMBDA])
    };
    let indent_dsl = IndentDsl {
        rules: vec![
            indent(1, first_of_lambda, IndentAction::Offset(6)),
            indent(2, last_of_lambda, IndentAction::Offset(4)),
        ],
        anchors: vec![],
    };
    let diff = fmt_engine::engine::format(&no_spacing(), &indent_dsl, &tree).unwrap();
    assert_eq!(diff.edits(), &vec![edit(2, 5, "\n    ", Some(2))]);
    assert_eq!(apply(&tree, &diff), "x:\n    body");
}

#[test]
fn first_child_on_a_new_line_is_left_to_its_parent() {
    let tree = tree_of("\nx:\n  body");
    let first_of_lambda = Pattern {
        position: SiblingPosition::First,
        ..pattern(&[NODE_IDENT], &[NODE_LAMBDA])
    };
    let indent_dsl = IndentDsl {
        rules: vec![
            indent(1, first_of_lambda, IndentAction::Offset(6)),
            indent(2, pattern(&[NODE_LAMBDA], &[NODE_ROOT]), IndentAction::Offset(4)),
        ],
        anchors: vec![],
    };
    let diff = fmt_engine::engine::format(&no_spacing(), &indent_dsl, &tree).unwrap();
    // The line of `x` is the lambda's to indent: rule 2 applies, rule 1 never
    // does. The body has no rule and goes one level deeper than the lambda.
    assert_eq!(
        diff.edits(),
        &vec![edit(0, 1, "\n    ", Some(2)), edit(3, 6, "\n      ", None)]
    );
    assert_eq!(apply(&tree, &diff), "\n    x:\n      body");
}

#[test]
fn multi_line_literal_moves_with_its_opening_line() {
    let source = "{\nx = ''\n  foo\n    bar\n'';\n}";
    let tree = tree_of(source);
    let indent_dsl = IndentDsl { rules: vec![closers_at_parent_indent(3)], anchors: vec![] };
    let diff = fmt_engine::engine::format(&no_spacing(), &indent_dsl, &tree).unwrap();
    assert_eq!(apply(&tree, &diff), "{\n  x = ''\n    foo\n      bar\n  '';\n}");
    assert_eq!(
        diff.edits(),
        &vec![
            edit(1, 2, "\n  ", None),
            edit(9, 9, "  ", None),
            edit(15, 15, "  ", None),
            edit(23, 23, "  ", None),
        ]
    );
}

#[test]
fn multi_line_literal_moves_left_by_no_more_than_it_has() {
    let source = "{\n      x = ''\n        foo\n   bar\n\n      '';\n}";
    let tree = tree_of(source);
    let indent_dsl = IndentDsl { rules: vec![closers_at_parent_indent(3)], anchors: vec![] };
    let diff = fmt_engine::engine::format(&no_spacing(), &indent_dsl, &tree).unwrap();
    // The opening line moves four columns to the left. `bar` has only three
    // spaces to give, and the empty line stays empty.
    assert_eq!(apply(&tree, &diff), "{\n  x = ''\n    foo\nbar\n\n  '';\n}");
}

#[test]
fn plain_string_content_is_never_moved() {
    let source = "{\nx = \"a\n  b\";\n}";
    let tree = tree_of(source);
    let indent_dsl = IndentDsl { rules: vec![closers_at_parent_indent(3)], anchors: vec![] };
    let diff = fmt_engine::engine::format(&no_spacing(), &indent_dsl, &tree).unwrap();
    assert_eq!(apply(&tree, &diff), "{\n  x = \"a\n  b\";\n}");
}

#[test]
fn bare_uri_is_quoted() {
    let tree = tree_of("[ http://example.org/x ]");
    let diff = fmt_engine::engine::format(&no_spacing(), &IndentDsl { rules: vec![], anchors: vec![] }, &tree).unwrap();
    assert_eq!(diff.edits(), &vec![edit(2, 2, "\"", None), edit(22, 22, "\"", None)]);
    assert_eq!(apply(&tree, &diff), "[ \"http://example.org/x\" ]");
}

/// `abcd(y\nx`: root > [ident, K > ["(", A > [y, ws, x]]].
fn three_levels() -> SyntaxTree {
    let mut b = TreeBuilder::new();
    b.start_node(76).unwrap();
    b.token(45, b"abcd").unwrap();
    b.start_node(100).unwrap();
    b.token(24, b"(").unwrap();
    b.start_node(101).unwrap();
    b.token(45, b"y").unwrap();
    b.token(2, b"\n").unwrap();
    b.token(45, b"x").unwrap();
    b.finish_node().unwrap();
    b.finish_node().unwrap();
    b.finish_node().unwrap();
    b.finish().unwrap()
}

#[test]
fn default_indent_is_relative_to_the_nearest_anchor() {
    let tree = three_levels();
    let anchored = IndentDsl {
        rules: vec![],
        anchors: vec![Pattern { kinds: Some(vec![100]), ..Pattern::any() }],
    };
    let diff = fmt_engine::engine::format(&no_spacing(), &anchored, &tree).unwrap();
    // The anchor begins in column 4; the element goes one level deeper.
    assert_eq!(diff.edits(), &vec![edit(6, 7, "\n      ", None)]);
    assert_eq!(apply(&tree, &diff), "abcd(y\n      x");
}

#[test]
fn default_indent_without_anchor_is_relative_to_the_line() {
    let tree = three_levels();
    let plain = IndentDsl { rules: vec![], anchors: vec![] };
    let diff = fmt_engine::engine::format(&no_spacing(), &plain, &tree).unwrap();
    assert_eq!(diff.edits(), &vec![edit(6, 7, "\n  ", None)]);
}

#[test]
fn anchor_action_looks_past_ancestors_that_begin_a_line() {
    // `k(\n  a(\nx`: the nearer ancestor begins a line, the farther is an
    // anchor in column 0.
    let mut b = TreeBuilder::new();
    b.start_node(76).unwrap();
    b.start_node(100).unwrap();
    b.token(45, b"k").unwrap();
    b.token(24, b"(").unwrap();
    b.token(2, b"\n    ").unwrap();
    b.start_node(101).unwrap();
    b.token(45, b"a").unwrap();
    b.token(24, b"(").unwrap();
    b.token(2, b"\n").unwrap();
    b.token(46, b"7").unwrap();
    b.finish_node().unwrap();
    b.finish_node().unwrap();
    b.finish_node().unwrap();
    let tree = b.finish().unwrap();
    let anchors = vec![Pattern { kinds: Some(vec![100]), ..Pattern::any() }];
    let by_anchor = IndentDsl {
        rules: vec![indent(
            5,
            Pattern { kinds: Some(vec![46]), ..Pattern::any() },
            IndentAction::Anchor,
        )],
        anchors,
    };
    let diff = fmt_engine::engine::format(&no_spacing(), &by_anchor, &tree).unwrap();
    // `a` goes one level deeper than the anchor `k`, and so does `7`, whose
    // rule asks for the anchor and not for the parent.
    assert_eq!(apply(&tree, &diff), "k(\n  a(\n  7");
    let by_default = IndentDsl {
        rules: vec![],
        anchors: vec![Pattern { kinds: Some(vec![100]), ..Pattern::any() }],
    };
    let diff = fmt_engine::engine::format(&no_spacing(), &by_default, &tree).unwrap();
    assert_eq!(apply(&tree, &diff), "k(\n  a(\n    7");
}

#[test]
fn two_matching_indent_rules_are_fatal() {
    let tree = tree_of("[\na\n]");
    let indent_dsl = IndentDsl {
        rules: vec![
            closers_at_parent_indent(1),
            indent(2, pattern(&[NODE_IDENT], &[]), IndentAction::Offset(2)),
            indent(3, pattern(&[], &[NODE_LIST]), IndentAction::Offset(4)),
        ],
        anchors: vec![],
    };
    let r = fmt_engine::engine::format(&no_spacing(), &indent_dsl, &tree);
    // Element 4 is the identifier node; `]` would clash too, but comes later.
    assert_eq!(
        r.err(),
        Some(FormatError::ConflictingIndentRules { element: 4, first: 1, second: 2 })
    );
}

#[test]
fn clashing_rules_are_harmless_where_no_line_begins() {
    let tree = tree_of("[ a ]");
    let indent_dsl = IndentDsl {
        rules: vec![
            indent(2, pattern(&[NODE_IDENT], &[]), IndentAction::Offset(2)),
            indent(3, pattern(&[], &[NODE_LIST]), IndentAction::Offset(4)),
        ],
        anchors: vec![],
    };
    let diff = fmt_engine::engine::format(&no_spacing(), &indent_dsl, &tree).unwrap();
    assert!(diff.is_empty());
}

#[test]
fn several_spacing_rules_may_match_one_element() {
    let tree = tree_of("[a   b]");
    let spacing_dsl = SpacingDsl {
        rules: vec![
            spacing(1, pattern(&[NODE_IDENT], &[]), SpaceLoc::Around, SpaceValue::NoSpace),
            spacing(2, pattern(&[NODE_IDENT], &[NODE_LIST]), SpaceLoc::Before, SpaceValue::Single),
        ],
    };
    let diff = fmt_engine::engine::format(&spacing_dsl, &IndentDsl { rules: vec![], anchors: vec![] }, &tree).unwrap();
    // For `b`, rule 1 empties the run in front and rule 2 then widens it to
    // one space; rule 1 of `a` had emptied it before.
    assert_eq!(apply(&tree, &diff), "[ a b]");
    assert_eq!(diff.edits(), &vec![edit(1, 1, " ", Some(2)), edit(2, 5, " ", Some(2))]);
}

#[test]
fn newline_behind_a_line_comment_stays() {
    let tree = tree_of("[ # note\n a ]");
    let spacing_dsl = SpacingDsl {
        rules: vec![spacing(1, pattern(&[NODE_IDENT], &[]), SpaceLoc::Before, SpaceValue::Single)],
    };
    let diff = fmt_engine::engine::format(&spacing_dsl, &IndentDsl { rules: vec![], anchors: vec![] }, &tree).unwrap();
    assert_eq!(apply(&tree, &diff), "[ # note\n  a ]");
}

#[test]
fn formatted_text_formats_to_nothing() {
    let source = "{\nx = [ 1\n2 ];\n      y = ''\n  a\n   b\n'';\n}";
    let spacing_dsl = SpacingDsl {
        rules: vec![
            spacing(1, pattern(&[TOKEN_ASSIGN], &[]), SpaceLoc::Around, SpaceValue::Single),
            spacing(2, pattern(&[TOKEN_SEMICOLON], &[]), SpaceLoc::Before, SpaceValue::NoSpace),
            spacing(3, pattern(&[NODE_KEY_VALUE], &[]), SpaceLoc::Before, SpaceValue::Newlines(1)),
            spacing(4, pattern(&[TOKEN_SQUARE_B_CLOSE], &[]), SpaceLoc::Before, SpaceValue::SingleOptionalNewline),
        ],
    };
    let indent_dsl = IndentDsl { rules: vec![closers_at_parent_indent(9)], anchors: vec![] };
    let tree = tree_of(source);
    let diff = fmt_engine::engine::format(&spacing_dsl, &indent_dsl, &tree).unwrap();
    let once = apply(&tree, &diff);
    // The line of `y` moves four columns to the left; the lines of the
    // literal follow as far as they can.
    assert_eq!(once, "{\n  x = [ 1\n    2 ];\n  y = ''\na\nb\n'';\n}");
    let again = fmt_engine::engine::format(&spacing_dsl, &indent_dsl, &tree_of(&once)).unwrap();
    assert!(again.is_empty());
}

#[test]
fn only_whitespace_and_literals_change() {
    let source = "{ a=http://x.org ;b   = ''\n q\n'' ; }";
    let spacing_dsl = SpacingDsl {
        rules: vec![
            spacing(1, pattern(&[TOKEN_ASSIGN], &[]), SpaceLoc::Around, SpaceValue::Single),
            spacing(2, pattern(&[TOKEN_SEMICOLON], &[]), SpaceLoc::Before, SpaceValue::NoSpace),
            spacing(3, pattern(&[NODE_KEY_VALUE], &[]), SpaceLoc::Before, SpaceValue::Newlines(1)),
        ],
    };
    let tree = tree_of(source);
    let diff = fmt_engine::engine::format(&spacing_dsl, &IndentDsl { rules: vec![], anchors: vec![] }, &tree).unwrap();
    let out = apply(&tree, &diff);
    let significant = |text: &str| -> Vec<(u16, String)> {
        let tree = tree_of(text);
        (0..tree.token_count())
            .map(|j| {
                (
                    tree.element(tree.token(j)).kind,
                    String::from_utf8(tree.token_text(j).to_vec()).unwrap(),
                )
            })
            .filter(|(kind, _)| {
                *kind != TOKEN_URI as u16
                    && *kind != TOKEN_STRING_CONTENT as u16
                    && *kind != TOKEN_STRING_START as u16
                    && *kind != TOKEN_STRING_END as u16
            })
            .collect()
    };
    assert_eq!(significant(source), significant(&out));
    // No two edits overlap, and they come in text order.
    let edits = diff.edits();
    for pair in edits.windows(2) {
        assert!(pair[0].delete.end <= pair[1].delete.start);
    }
    for e in edits {
        assert!(e.delete.start <= e.delete.end && e.delete.end <= source.len());
    }
}

#[test]
fn runs_at_both_ends_of_the_text_are_runs_too() {
    let spacing_dsl = SpacingDsl {
        rules: vec![
            spacing(1, pattern(&[NODE_ROOT], &[]), SpaceLoc::Before, SpaceValue::NoSpace),
            spacing(2, pattern(&[NODE_ROOT], &[]), SpaceLoc::After, SpaceValue::Newlines(1)),
        ],
    };
    let none = IndentDsl { rules: vec![], anchors: vec![] };
    let tree = tree_of("  a");
    let diff = fmt_engine::engine::format(&spacing_dsl, &none, &tree).unwrap();
    assert_eq!(diff.edits(), &vec![edit(0, 2, "", Some(1)), edit(3, 3, "\n", Some(2))]);
    assert_eq!(apply(&tree, &diff), "a\n");
    let tree = tree_of("a\n\n");
    let diff = fmt_engine::engine::format(&spacing_dsl, &none, &tree).unwrap();
    assert!(diff.is_empty());
}

#[test]
fn element_without_rule_goes_one_level_below_its_parent() {
    let tree = tree_of("[\na\n    [\nb\n]\n]");
    let indent_dsl = IndentDsl { rules: vec![closers_at_parent_indent(1)], anchors: vec![] };
    let diff = fmt_engine::engine::format(&no_spacing(), &indent_dsl, &tree).unwrap();
    assert_eq!(apply(&tree, &diff), "[\n  a\n  [\n    b\n  ]\n]");
}

#[test]
fn root_on_a_new_line_stands_in_column_zero() {
    let tree = tree_of("\n    \n   a");
    let top_level = indent(4, pattern(&[], &[NODE_ROOT]), IndentAction::Offset(0));
    let indent_dsl = IndentDsl { rules: vec![top_level], anchors: vec![] };
    let diff = fmt_engine::engine::format(&no_spacing(), &indent_dsl, &tree).unwrap();
    // The root is visited first and has no rule; the rule of `a` then finds
    // the run as it wants it.
    assert_eq!(diff.edits(), &vec![edit(0, 9, "\n\n", None)]);
    assert_eq!(apply(&tree, &diff), "\n\na");
}

#[test]
fn empty_text_has_nothing_to_format() {
    let tree = tree_of("");
    let spacing_dsl = SpacingDsl {
        rules: vec![spacing(1, Pattern::any(), SpaceLoc::Around, SpaceValue::NoSpace)],
    };
    let diff = fmt_engine::engine::format(&spacing_dsl, &IndentDsl { rules: vec![], anchors: vec![] }, &tree).unwrap();
    assert!(diff.is_empty());
    assert_eq!(apply(&tree, &diff), "");
}

#[test]
fn text_the_parser_cannot_make_sense_of_is_still_a_tree() {
    for source in ["{ a = ; ]] ''", "}}}} ${ \"", "''${''${", "a: b: ]", "/* open", "x = \"\\", "~", "\u{a0}\u{2028}é"] {
        let tree = tree_of(source);
        assert_eq!(tree.text(), source.as_bytes());
        let spacing_dsl = SpacingDsl {
            rules: vec![spacing(1, Pattern::any(), SpaceLoc::Before, SpaceValue::SingleOptionalNewline)],
        };
        let diff = fmt_engine::engine::format(&spacing_dsl, &IndentDsl { rules: vec![], anchors: vec![] }, &tree).unwrap();
        assert!(diff.apply(tree.text()).is_some());
    }
}

#[test]
fn long_text_is_formatted_line_by_line() {
    let mut source = String::from("[\n");
    for i in 0..3000 {
        source.push_str(if i % 3 == 0 { "      a\n" } else { "b\n" });
    }
    source.push(']');
    let tree = tree_of(&source);
    let indent_dsl = IndentDsl { rules: vec![closers_at_parent_indent(1)], anchors: vec![] };
    let diff = fmt_engine::engine::format(&no_spacing(), &indent_dsl, &tree).unwrap();
    assert_eq!(diff.len(), 3000);
    let out = apply(&tree, &diff);
    let mut lines = out.lines();
    assert_eq!(lines.next(), Some("["));
    for i in 0..3000 {
        assert_eq!(lines.next(), Some(if i % 3 == 0 { "  a" } else { "  b" }));
    }
    assert_eq!(lines.next(), Some("]"));
    assert_eq!(lines.next(), None);
    let again = fmt_engine::engine::format(&no_spacing(), &indent_dsl, &tree_of(&out)).unwrap();
    assert!(again.is_empty());
}
