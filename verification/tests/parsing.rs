//! End-to-end tests of the parser: the acceptance scenarios, losslessness,
//! totality, and error recovery.

use lang::green::{GreenElement, GreenNode};
use lang::kinds::SyntaxKind;
use lang::parse;

fn text_of(n: &GreenNode) -> String {
    let mut out = String::new();
    collect_text(n, &mut out);
    out
}

fn collect_text(n: &GreenNode, out: &mut String) {
    for c in &n.children {
        match c {
            GreenElement::Token(t) => out.push_str(&t.text),
            GreenElement::Node(m) => collect_text(m, out),
        }
    }
}

fn node_child(n: &GreenNode, i: usize) -> &GreenNode {
    match &n.children[i] {
        GreenElement::Node(m) => m,
        GreenElement::Token(t) => panic!("expected node child, found token {:?}", t.kind),
    }
}

fn token_kind(n: &GreenNode, i: usize) -> SyntaxKind {
    match &n.children[i] {
        GreenElement::Token(t) => t.kind,
        GreenElement::Node(m) => panic!("expected token child, found node {:?}", m.kind),
    }
}

fn token_text(n: &GreenNode, i: usize) -> &str {
    match &n.children[i] {
        GreenElement::Token(t) => &t.text,
        GreenElement::Node(m) => panic!("expected token child, found node {:?}", m.kind),
    }
}

fn child_kinds(n: &GreenNode) -> Vec<SyntaxKind> {
    n.children
        .iter()
        .map(|c| match c {
            GreenElement::Node(m) => m.kind,
            GreenElement::Token(t) => t.kind,
        })
        .collect()
}

#[test]
fn assign_statement_tree() {
    let p = parse("A1=3\n");
    assert!(p.errors.is_empty());
    assert_eq!(p.root.kind, SyntaxKind::ROOT);
    assert_eq!(p.root.children.len(), 1);
    let stmt = node_child(&p.root, 0);
    assert_eq!(stmt.kind, SyntaxKind::STATEMENT);
    assert_eq!(
        child_kinds(stmt),
        vec![SyntaxKind::ASSIGN, SyntaxKind::NEWLINE]
    );
    let assign = node_child(stmt, 0);
    assert_eq!(
        child_kinds(assign),
        vec![SyntaxKind::PLACE, SyntaxKind::EQ, SyntaxKind::EXPR]
    );
    let place = node_child(assign, 0);
    assert_eq!(child_kinds(place), vec![SyntaxKind::CELL]);
    assert_eq!(token_text(place, 0), "A1");
    assert_eq!(token_text(assign, 1), "=");
    let expr = node_child(assign, 2);
    assert_eq!(child_kinds(expr), vec![SyntaxKind::INT]);
    assert_eq!(token_text(expr, 0), "3");
}

#[test]
fn cell_range_tree() {
    let p = parse("A1:A3=3\n");
    assert!(p.errors.is_empty());
    let stmt = node_child(&p.root, 0);
    let assign = node_child(stmt, 0);
    let place = node_child(assign, 0);
    assert_eq!(child_kinds(place), vec![SyntaxKind::CELL_RANGE]);
    let range = node_child(place, 0);
    assert_eq!(
        child_kinds(range),
        vec![SyntaxKind::CELL, SyntaxKind::COLON, SyntaxKind::CELL]
    );
    assert_eq!(token_text(range, 0), "A1");
    assert_eq!(token_text(range, 1), ":");
    assert_eq!(token_text(range, 2), "A3");
}

#[test]
fn alias_statement_tree() {
    let p = parse("alias foo=A1\n");
    assert!(p.errors.is_empty());
    let stmt = node_child(&p.root, 0);
    assert_eq!(stmt.kind, SyntaxKind::STATEMENT);
    let alias = node_child(stmt, 0);
    assert_eq!(alias.kind, SyntaxKind::ALIAS_STMT);
    assert_eq!(
        child_kinds(alias),
        vec![
            SyntaxKind::ALIAS_TOK,
            SyntaxKind::WHITESPACE,
            SyntaxKind::IDENT,
            SyntaxKind::EQ,
            SyntaxKind::PLACE,
        ]
    );
    assert_eq!(token_text(alias, 2), "foo");
    let place = node_child(alias, 4);
    assert_eq!(token_text(place, 0), "A1");
}

#[test]
fn missing_expression_recovers() {
    let p = parse("A1=\n");
    assert_eq!(p.errors.len(), 1);
    assert_eq!(p.errors[0].start, 3);
    assert_eq!(p.errors[0].end, 4);
    assert_eq!(p.errors[0].found, Some('\n'));
    // The tree still holds a STATEMENT with a partial ASSIGN, and the
    // trailing newline token.
    let stmt = node_child(&p.root, 0);
    assert_eq!(stmt.kind, SyntaxKind::STATEMENT);
    let assign = node_child(stmt, 0);
    assert_eq!(assign.kind, SyntaxKind::ASSIGN);
    assert_eq!(child_kinds(assign), vec![SyntaxKind::PLACE, SyntaxKind::EQ]);
    let last = p.root.children.len() - 1;
    assert_eq!(token_kind(&p.root, last), SyntaxKind::NEWLINE);
    assert_eq!(text_of(&p.root), "A1=\n");
}

#[test]
fn empty_input() {
    let p = parse("");
    assert!(p.errors.is_empty());
    assert_eq!(p.root.kind, SyntaxKind::ROOT);
    assert!(p.root.children.is_empty());
}

#[test]
fn enum_expression_tree() {
    let p = parse("A1=enum B2\n");
    assert!(p.errors.is_empty());
    let assign = node_child(node_child(&p.root, 0), 0);
    let expr = node_child(assign, 2);
    assert_eq!(child_kinds(expr), vec![SyntaxKind::ENUM_EXPR]);
    let en = node_child(expr, 0);
    assert_eq!(child_kinds(en), vec![SyntaxKind::ENUM_TOK, SyntaxKind::PLACE]);
    // the whitespace after the keyword is trivia inside the place
    let place = node_child(en, 1);
    assert_eq!(
        child_kinds(place),
        vec![SyntaxKind::WHITESPACE, SyntaxKind::CELL]
    );
    assert_eq!(token_text(place, 1), "B2");
}

#[test]
fn alias_reference_place() {
    let p = parse("$foo=1\n");
    assert!(p.errors.is_empty());
    let assign = node_child(node_child(&p.root, 0), 0);
    let place = node_child(assign, 0);
    assert_eq!(child_kinds(place), vec![SyntaxKind::ALIAS_EXPR]);
    let al = node_child(place, 0);
    assert_eq!(child_kinds(al), vec![SyntaxKind::DOLLAR, SyntaxKind::IDENT]);
    assert_eq!(token_text(al, 1), "foo");
}

#[test]
fn blank_lines() {
    let p = parse("  \n\n");
    assert!(p.errors.is_empty());
    assert_eq!(
        child_kinds(&p.root),
        vec![
            SyntaxKind::WHITESPACE,
            SyntaxKind::NEWLINE,
            SyntaxKind::NEWLINE,
        ]
    );
}

#[test]
fn trailing_whitespace_without_newline_is_an_error() {
    let p = parse("  ");
    assert_eq!(p.errors.len(), 1);
    assert_eq!(p.errors[0].start, 2);
    assert_eq!(p.errors[0].end, 2);
    assert_eq!(p.errors[0].found, None);
    assert_eq!(text_of(&p.root), "  ");
}

#[test]
fn garbage_line_recovers() {
    let p = parse("garbage\nA1=3\n");
    assert_eq!(p.errors.len(), 1);
    assert_eq!(p.errors[0].start, 0);
    assert_eq!(p.errors[0].found, Some('g'));
    // The junk is kept as an ERROR token, the newline survives, and the
    // second line still parses.
    assert_eq!(token_kind(&p.root, 0), SyntaxKind::ERROR);
    assert_eq!(token_text(&p.root, 0), "garbage");
    assert_eq!(token_kind(&p.root, 1), SyntaxKind::NEWLINE);
    let stmt = node_child(&p.root, 2);
    assert_eq!(stmt.kind, SyntaxKind::STATEMENT);
    assert_eq!(text_of(&p.root), "garbage\nA1=3\n");
}

#[test]
fn lossless_on_all_inputs() {
    let inputs = [
        "",
        "A1=3\n",
        "A1:A3=3\n",
        "alias foo=A1\n",
        "A1=\n",
        "  \t \n",
        "@@ garbage \u{20ac}?\n",
        "  \nA1=enum B2\nxyz",
        "A1=3",
        "\u{0}\u{ffff}\u{1f600}\n",
        "alias1=2\n",
        "aliasfoo = A1\n",
        "A1=3 x\n",
        "\u{a0}A1=3\n",
    ];
    for input in inputs {
        let p = parse(input);
        assert_eq!(text_of(&p.root), input, "lossless on {input:?}");
        assert_eq!(p.root.kind, SyntaxKind::ROOT);
    }
}

#[test]
fn errors_empty_iff_grammar_matched() {
    let valid = ["", "A1=3\n", "alias foo=A1\n", "  \n", "A1=$x\n", "alias1=2\n"];
    for input in valid {
        assert!(parse(input).errors.is_empty(), "no errors for {input:?}");
    }
    let invalid = ["A1=3", "A1=\n", "garbage\n", "  ", "=3\n", "alias =A1\n"];
    for input in invalid {
        assert!(!parse(input).errors.is_empty(), "errors for {input:?}");
    }
}

#[test]
fn keyword_prefix_backtracks_to_cell() {
    // `alias1` fails as an alias statement after the keyword, so the
    // assignment alternative wins with the cell `alias1`.
    let p = parse("alias1=2\n");
    assert!(p.errors.is_empty());
    let assign = node_child(node_child(&p.root, 0), 0);
    assert_eq!(assign.kind, SyntaxKind::ASSIGN);
    let place = node_child(assign, 0);
    assert_eq!(token_text(place, 0), "alias1");
}

#[test]
fn every_kind_in_tree_is_valid() {
    fn check(n: &GreenNode) {
        assert!(n.kind.into_raw() <= lang::kinds::ROOT_RAW);
        for c in &n.children {
            match c {
                GreenElement::Node(m) => check(m),
                GreenElement::Token(t) => {
                    assert!(t.kind.into_raw() <= lang::kinds::ROOT_RAW)
                }
            }
        }
    }
    for input in ["A1=3\n", "garbage\n", "A1=\n", "\u{0}?!\n"] {
        let p = parse(input);
        check(&p.root);
    }
}

#[test]
fn whitespace_between_tokens_is_kept_as_trivia() {
    let p = parse("A1 = 3\n");
    assert!(p.errors.is_empty());
    let stmt = node_child(&p.root, 0);
    let assign = node_child(stmt, 0);
    assert_eq!(
        child_kinds(assign),
        vec![
            SyntaxKind::PLACE,
            SyntaxKind::WHITESPACE,
            SyntaxKind::EQ,
            SyntaxKind::EXPR,
        ]
    );
    // the whitespace before the integer sits inside the expression
    let expr = node_child(assign, 3);
    assert_eq!(
        child_kinds(expr),
        vec![SyntaxKind::WHITESPACE, SyntaxKind::INT]
    );
    assert_eq!(text_of(&p.root), "A1 = 3\n");
}

#[test]
fn several_statements_in_order() {
    let p = parse("A1=1\nB2=2\n\nalias x=C3\n");
    assert!(p.errors.is_empty());
    assert_eq!(
        child_kinds(&p.root),
        vec![
            SyntaxKind::STATEMENT,
            SyntaxKind::STATEMENT,
            SyntaxKind::NEWLINE,
            SyntaxKind::STATEMENT,
        ]
    );
}

#[test]
fn missing_newline_at_end_is_an_error() {
    let p = parse("A1=3");
    assert_eq!(p.errors.len(), 1);
    assert_eq!(p.errors[0].start, 4);
    assert_eq!(p.errors[0].end, 4);
    assert_eq!(p.errors[0].found, None);
    // the complete assignment is still kept as a partial statement
    let stmt = node_child(&p.root, 0);
    let assign = node_child(stmt, 0);
    assert_eq!(
        child_kinds(assign),
        vec![SyntaxKind::PLACE, SyntaxKind::EQ, SyntaxKind::EXPR]
    );
}

#[test]
fn kind_raw_round_trip() {
    for raw in 0..=lang::kinds::ROOT_RAW {
        let k = SyntaxKind::from_raw(raw).expect("in-range raw value");
        assert_eq!(k.into_raw(), raw);
    }
    assert_eq!(SyntaxKind::from_raw(lang::kinds::ROOT_RAW), Some(SyntaxKind::ROOT));
    assert_eq!(SyntaxKind::from_raw(lang::kinds::ROOT_RAW + 1), None);
    assert_eq!(SyntaxKind::from_raw(u32::MAX), None);
}
