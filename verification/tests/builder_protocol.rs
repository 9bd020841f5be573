//! Tests of the tree builder's checkpoint protocol: retroactive wrapping and
//! backtracking.

use lang::builder::TreeBuilder;
use lang::green::{GreenElement, GreenNode};
use lang::kinds::SyntaxKind;

fn kinds_of(n: &GreenNode) -> Vec<SyntaxKind> {
    n.children
        .iter()
        .map(|c| match c {
            GreenElement::Node(m) => m.kind,
            GreenElement::Token(t) => t.kind,
        })
        .collect()
}

#[test]
fn checkpoint_wraps_exactly_the_siblings_since_it() {
    let mut b = TreeBuilder::new();
    b.start_node(SyntaxKind::ROOT);
    b.token(SyntaxKind::WHITESPACE, " ".to_string());
    let cp = b.checkpoint();
    b.token(SyntaxKind::CELL, "A1".to_string());
    b.token(SyntaxKind::EQ, "=".to_string());
    b.token(SyntaxKind::INT, "3".to_string());
    // Only now does the builder learn these three siblings form one node.
    b.start_node_at(cp, SyntaxKind::ASSIGN);
    b.finish_node();
    let root = b.finish();
    assert_eq!(root.kind, SyntaxKind::ROOT);
    assert_eq!(
        kinds_of(&root),
        vec![SyntaxKind::WHITESPACE, SyntaxKind::ASSIGN]
    );
    let assign = match &root.children[1] {
        GreenElement::Node(m) => m,
        _ => panic!("expected the wrapped node"),
    };
    // exactly the siblings emitted since the checkpoint, in order
    assert_eq!(
        kinds_of(assign),
        vec![SyntaxKind::CELL, SyntaxKind::EQ, SyntaxKind::INT]
    );
}

#[test]
fn revert_discards_exactly_the_siblings_since_it() {
    let mut b = TreeBuilder::new();
    b.start_node(SyntaxKind::ROOT);
    b.token(SyntaxKind::CELL, "A1".to_string());
    let cp = b.checkpoint();
    b.token(SyntaxKind::COLON, ":".to_string());
    b.token(SyntaxKind::CELL, "A".to_string());
    // The alternative failed; roll its tokens back.
    b.revert(cp);
    b.token(SyntaxKind::EQ, "=".to_string());
    let root = b.finish();
    assert_eq!(kinds_of(&root), vec![SyntaxKind::CELL, SyntaxKind::EQ]);
}

#[test]
fn nested_nodes_attach_to_their_parent() {
    let mut b = TreeBuilder::new();
    b.start_node(SyntaxKind::ROOT);
    b.start_node(SyntaxKind::PLACE);
    b.token(SyntaxKind::CELL, "B2".to_string());
    b.finish_node();
    b.token(SyntaxKind::NEWLINE, "\n".to_string());
    let root = b.finish();
    assert_eq!(kinds_of(&root), vec![SyntaxKind::PLACE, SyntaxKind::NEWLINE]);
    match &root.children[0] {
        GreenElement::Node(place) => {
            assert_eq!(kinds_of(place), vec![SyntaxKind::CELL]);
            match &place.children[0] {
                GreenElement::Token(t) => assert_eq!(t.text, "B2"),
                _ => panic!("expected the cell token"),
            }
        }
        _ => panic!("expected the place node"),
    }
}
