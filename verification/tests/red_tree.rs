//! Tests of the red cursors: offsets, parent links, and idempotent
//! re-derivation.

use lang::kinds::SyntaxKind;
use lang::parse;
use lang::red::{SyntaxElement, SyntaxNode};

fn element_summary(els: &[SyntaxElement]) -> Vec<(SyntaxKind, usize)> {
    els.iter()
        .map(|el| match el {
            SyntaxElement::Node(n) => (n.kind(), n.offset()),
            SyntaxElement::Token(t) => (t.kind(), t.offset()),
        })
        .collect()
}

#[test]
fn root_cursor_and_offsets() {
    let p = parse("A1=3\n");
    let root = p.red_tree();
    assert_eq!(root.kind(), SyntaxKind::ROOT);
    assert_eq!(root.offset(), 0);
    assert!(root.parent().is_none());
    let kids = root.children_with_tokens();
    assert_eq!(element_summary(&kids), vec![(SyntaxKind::STATEMENT, 0)]);
    let stmt = match &kids[0] {
        SyntaxElement::Node(n) => n,
        _ => panic!("expected a node"),
    };
    let stmt_kids = stmt.children_with_tokens();
    assert_eq!(
        element_summary(&stmt_kids),
        vec![(SyntaxKind::ASSIGN, 0), (SyntaxKind::NEWLINE, 4)]
    );
    let assign = match &stmt_kids[0] {
        SyntaxElement::Node(n) => n,
        _ => panic!("expected a node"),
    };
    let assign_kids = assign.children_with_tokens();
    assert_eq!(
        element_summary(&assign_kids),
        vec![
            (SyntaxKind::PLACE, 0),
            (SyntaxKind::EQ, 2),
            (SyntaxKind::EXPR, 3),
        ]
    );
    match &assign_kids[1] {
        SyntaxElement::Token(t) => {
            assert_eq!(t.text(), "=");
            assert_eq!(t.offset(), 2);
        }
        _ => panic!("expected the EQ token"),
    }
}

#[test]
fn parent_back_references() {
    let p = parse("A1=3\n");
    let root = p.red_tree();
    let kids = root.children_with_tokens();
    let stmt = match &kids[0] {
        SyntaxElement::Node(n) => n,
        _ => panic!("expected a node"),
    };
    let parent = stmt.parent().expect("the statement has a parent");
    assert_eq!(parent.kind(), SyntaxKind::ROOT);
    assert_eq!(parent.offset(), 0);
    let stmt_kids = stmt.children_with_tokens();
    match &stmt_kids[1] {
        SyntaxElement::Token(_) => {}
        _ => panic!("expected the NEWLINE token"),
    }
}

#[test]
fn rederivation_is_idempotent() {
    let p = parse("alias foo=A1\nA1=3\n");
    let first: Vec<(SyntaxKind, usize)> = {
        let root = p.red_tree();
        element_summary(&root.children_with_tokens())
    };
    let second: Vec<(SyntaxKind, usize)> = {
        let root = p.red_tree();
        element_summary(&root.children_with_tokens())
    };
    assert_eq!(first, second);
    let root_a = p.red_tree();
    let root_b = SyntaxNode::new_root(&p.root);
    assert_eq!(root_a.offset(), root_b.offset());
    assert_eq!(
        element_summary(&root_a.children_with_tokens()),
        element_summary(&root_b.children_with_tokens())
    );
}

#[test]
fn offsets_count_characters() {
    // The leading no-break space is one character of whitespace trivia.
    let p = parse("\u{a0}A1=3\n");
    assert!(p.errors.is_empty());
    let root = p.red_tree();
    let kids = root.children_with_tokens();
    let stmt = match &kids[0] {
        SyntaxElement::Node(n) => n,
        _ => panic!("expected a node"),
    };
    let assign = match &stmt.children_with_tokens()[0] {
        SyntaxElement::Node(n) => n.children_with_tokens(),
        _ => panic!("expected a node"),
    };
    // PLACE holds the whitespace and the cell; EQ follows at offset 3.
    assert_eq!(element_summary(&assign)[1], (SyntaxKind::EQ, 3));
}
