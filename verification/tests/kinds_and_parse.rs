use fmt_engine::kinds;
use fmt_engine::tree::{SyntaxTree, TreeBuilder, TreeError, WalkStep};

/// The tree that `rnix` parses from `source`, handed to the library node by
/// node.
fn tree_of(source: &str) -> SyntaxTree {
    let mut builder = TreeBuilder::new();
    for event in rnix::parse(source).node().preorder_with_tokens() {
        match event {
            rnix::WalkEvent::Enter(rnix::NodeOrToken::Node(node)) => {
                builder.start_node(node.kind() as u16).unwrap()
            }
            rnix::WalkEvent::Enter(rnix::NodeOrToken::Token(token)) => {
                builder.token(token.kind() as u16, token.text().as_bytes()).unwrap()
            }
            rnix::WalkEvent::Leave(rnix::NodeOrToken::Node(_)) => builder.finish_node().unwrap(),
            rnix::WalkEvent::Leave(rnix::NodeOrToken::Token(_)) => {}
        }
    }
    builder.finish().unwrap()
}

#[test]
fn kind_tags_agree_with_the_parser() {
    assert_eq!(kinds::TOKEN_COMMENT, rnix::SyntaxKind::TOKEN_COMMENT as u16);
    assert_eq!(kinds::TOKEN_WHITESPACE, rnix::SyntaxKind::TOKEN_WHITESPACE as u16);
    assert_eq!(kinds::TOKEN_URI, rnix::SyntaxKind::TOKEN_URI as u16);
    assert_eq!(kinds::TOKEN_STRING_CONTENT, rnix::SyntaxKind::TOKEN_STRING_CONTENT as u16);
    assert_eq!(kinds::TOKEN_STRING_END, rnix::SyntaxKind::TOKEN_STRING_END as u16);
    assert_eq!(kinds::TOKEN_STRING_START, rnix::SyntaxKind::TOKEN_STRING_START as u16);
    assert_eq!(kinds::NODE_STRING, rnix::SyntaxKind::NODE_STRING as u16);
}

#[test]
fn parsed_tree_keeps_the_text() {
    let source = "{ a = 1;\n  b = [ 2 3 ]; }\n";
    let tree = tree_of(source);
    assert_eq!(tree.text(), source.as_bytes());
    let root = tree.element(0);
    assert_eq!(root.kind, rnix::SyntaxKind::NODE_ROOT as u16);
    assert!(!root.is_token);
    assert_eq!(root.parent, None);
    assert_eq!((root.start, root.end), (0, source.len()));
}

#[test]
fn parsed_tree_lists_the_tokens_in_text_order() {
    let tree = tree_of("a: b");
    assert_eq!(tree.token_count(), 3);
    assert_eq!(tree.token_text(0), b"a");
    assert_eq!(tree.token_text(1), b":");
    assert_eq!(tree.token_text(2), b"b");
    assert_eq!(tree.space_text(0), b"");
    assert_eq!(tree.space_text(2), b" ");
    assert_eq!(tree.space_range(2), (2, 3));
    assert_eq!(tree.space_text(3), b"");
}

#[test]
fn parsed_tree_of_empty_text_is_a_bare_root() {
    let tree = tree_of("");
    assert_eq!(tree.len(), 1);
    assert_eq!(tree.token_count(), 0);
    assert_eq!(tree.walk_non_whitespace(), vec![0]);
}

#[test]
fn builder_computes_offsets_and_parents() {
    let mut b = TreeBuilder::new();
    b.start_node(76).unwrap();
    b.token(2, b"  ").unwrap();
    b.start_node(69).unwrap();
    b.token(14, b"[").unwrap();
    b.token(2, b" ").unwrap();
    b.token(15, b"]").unwrap();
    b.finish_node().unwrap();
    b.finish_node().unwrap();
    let tree = b.finish().unwrap();
    assert_eq!(tree.text(), b"  [ ]");
    assert_eq!(tree.len(), 6);
    let list = tree.element(2);
    assert_eq!((list.start, list.end), (2, 5));
    assert_eq!(list.parent, Some(0));
    assert_eq!((list.first_token, list.end_token), (0, 2));
    let close = tree.element(5);
    assert_eq!(close.parent, Some(2));
    assert_eq!((close.first_token, close.end_token), (1, 2));
    assert!(tree.is_whitespace(1));
    assert!(!tree.is_whitespace(3));
    assert_eq!(tree.walk_non_whitespace(), vec![0, 2, 3, 5]);
    assert_eq!(tree.token(1), 5);
    assert_eq!(tree.element_text(2), b"[ ]");
}

#[test]
fn builder_refuses_what_is_no_tree() {
    let mut b = TreeBuilder::new();
    assert_eq!(b.token(45, b"a"), Err(TreeError::TokenOutsideNode));
    assert_eq!(b.finish_node(), Err(TreeError::UnbalancedClose));
    b.start_node(76).unwrap();
    b.finish_node().unwrap();
    assert_eq!(b.start_node(76), Err(TreeError::SecondRoot));

    assert!(matches!(TreeBuilder::new().finish(), Err(TreeError::Empty)));

    let mut open = TreeBuilder::new();
    open.start_node(76).unwrap();
    assert!(matches!(open.finish(), Err(TreeError::Unclosed)));
}

#[test]
fn from_steps_reports_the_first_failure() {
    let steps = vec![
        WalkStep::Open { kind: 76 },
        WalkStep::Leaf { kind: 45, text: b"a".to_vec() },
        WalkStep::LeafEnd,
        WalkStep::Close,
        WalkStep::Close,
        WalkStep::Open { kind: 76 },
    ];
    assert!(matches!(SyntaxTree::from_steps(&steps), Err(TreeError::UnbalancedClose)));
    let good = &steps[..4].iter().map(|s| match s {
        WalkStep::Open { kind } => WalkStep::Open { kind: *kind },
        WalkStep::Leaf { kind, text } => WalkStep::Leaf { kind: *kind, text: text.clone() },
        WalkStep::Close => WalkStep::Close,
        WalkStep::LeafEnd => WalkStep::LeafEnd,
    }).collect::<Vec<_>>();
    let tree = SyntaxTree::from_steps(good).unwrap();
    assert_eq!(tree.text(), b"a");
    assert_eq!(tree.len(), 2);
}

#[test]
fn parsed_trees_keep_their_text_and_are_plain() {
    let alphabet: Vec<char> = "{}[]()\"'$;:=.,/\\ \n\t#*+-<>?@!&|~a1_%eifnrtlo".chars().collect();
    let mut state: u64 = 0x2545_f491_4f6c_dd1d;
    let mut next = move || {
        state ^= state << 13;
        state ^= state >> 7;
        state ^= state << 17;
        state
    };
    for _ in 0..20000 {
        let len = (next() % 14) as usize;
        let source: String = (0..len).map(|_| alphabet[(next() % alphabet.len() as u64) as usize]).collect();
        let tree = tree_of(&source);
        assert_eq!(tree.text(), source.as_bytes());
        assert_eq!(tree.element(0).end, source.len());
        assert!(tree.is_plain());
    }
}

#[test]
fn token_without_text_makes_a_tree_less_than_plain() {
    let mut b = TreeBuilder::new();
    b.start_node(76).unwrap();
    b.token(45, b"").unwrap();
    b.start_node(69).unwrap();
    b.token(45, b"a").unwrap();
    b.finish_node().unwrap();
    b.finish_node().unwrap();
    let tree = b.finish().unwrap();
    // The list begins where the root begins, and yet a token precedes it.
    assert!(!tree.is_plain());

    let mut b = TreeBuilder::new();
    b.start_node(76).unwrap();
    b.token(2, b"\n").unwrap();
    b.start_node(69).unwrap();
    b.token(45, b"a").unwrap();
    b.finish_node().unwrap();
    b.finish_node().unwrap();
    assert!(b.finish().unwrap().is_plain());
}
