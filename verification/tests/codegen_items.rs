//! Tests of the code generator: name mangling, lowering a grammar
//! description, and rendering the typed declarations.

use lang::codegen::{
    generate, lower_grammar, pluralize, to_lower_snake_case, to_pascal_case, AstItem,
    AstItemKind, Cardinality, Field, GrammarDef, GrammarNode, Rule, Variant,
};

#[test]
fn snake_case() {
    assert_eq!(to_lower_snake_case("CellRange"), "cell_range");
    assert_eq!(to_lower_snake_case("Place"), "place");
    assert_eq!(to_lower_snake_case("ALIAS"), "a_l_i_a_s");
    assert_eq!(to_lower_snake_case(""), "");
}

#[test]
fn pascal_case() {
    assert_eq!(to_pascal_case("cell_range"), "CellRange");
    assert_eq!(to_pascal_case("foo"), "Foo");
    assert_eq!(to_pascal_case("_x_y"), "XY");
    assert_eq!(to_pascal_case(""), "");
}

#[test]
fn pluralized_names() {
    assert_eq!(pluralize("cell"), "cells");
    assert_eq!(pluralize("statement"), "statements");
}

/// A small description:
///   Root      = Statement*
///   Statement = Assign | AliasStmt
///   Assign    = target:Place '#int'
///   AliasStmt = Place?
///   Place     = 'cell'
fn sample_grammar() -> GrammarDef {
    GrammarDef {
        nodes: vec![
            GrammarNode {
                name: "Root".to_string(),
                rule: Rule::Rep(Box::new(Rule::Node(1))),
            },
            GrammarNode {
                name: "Statement".to_string(),
                rule: Rule::Alt(vec![Rule::Node(2), Rule::Node(3)]),
            },
            GrammarNode {
                name: "Assign".to_string(),
                rule: Rule::Chain(vec![
                    Rule::Labeled {
                        label: "target".to_string(),
                        rule: Box::new(Rule::Node(4)),
                    },
                    Rule::Token("#int".to_string()),
                ]),
            },
            GrammarNode {
                name: "AliasStmt".to_string(),
                rule: Rule::Opt(Box::new(Rule::Node(4))),
            },
            GrammarNode {
                name: "Place".to_string(),
                rule: Rule::Token("cell".to_string()),
            },
        ],
    }
}

#[test]
fn lowering_produces_expected_items() {
    let items = lower_grammar(&sample_grammar());
    assert_eq!(items.len(), 4);

    match &items[0] {
        AstItem { name, kind: AstItemKind::Struct(fields) } => {
            assert_eq!(name, "Root");
            assert_eq!(fields.len(), 1);
            match &fields[0] {
                Field::Node { label, ty, cardinality } => {
                    assert_eq!(label, "statements");
                    assert_eq!(ty, "Statement");
                    assert_eq!(*cardinality, Cardinality::Many);
                }
                other => panic!("unexpected field {other:?}"),
            }
        }
        other => panic!("unexpected item {other:?}"),
    }

    match &items[1] {
        AstItem { name, kind: AstItemKind::Enum(variants) } => {
            assert_eq!(name, "Statement");
            assert_eq!(variants.len(), 2);
            assert!(matches!(&variants[0], Variant::Node(n) if n == "Assign"));
            assert!(matches!(&variants[1], Variant::Node(n) if n == "AliasStmt"));
        }
        other => panic!("unexpected item {other:?}"),
    }

    match &items[2] {
        AstItem { name, kind: AstItemKind::Struct(fields) } => {
            assert_eq!(name, "Assign");
            assert_eq!(fields.len(), 2);
            match &fields[0] {
                Field::Node { label, ty, cardinality } => {
                    assert_eq!(label, "target");
                    assert_eq!(ty, "Place");
                    assert_eq!(*cardinality, Cardinality::Optional);
                }
                other => panic!("unexpected field {other:?}"),
            }
            assert!(matches!(&fields[1], Field::Token(n) if n == "int"));
        }
        other => panic!("unexpected item {other:?}"),
    }

    match &items[3] {
        AstItem { name, kind: AstItemKind::Struct(fields) } => {
            assert_eq!(name, "AliasStmt");
            assert_eq!(fields.len(), 1);
            match &fields[0] {
                Field::Node { label, ty, cardinality } => {
                    assert_eq!(label, "place");
                    assert_eq!(ty, "Place");
                    assert_eq!(*cardinality, Cardinality::Optional);
                }
                other => panic!("unexpected field {other:?}"),
            }
        }
        other => panic!("unexpected item {other:?}"),
    }
}

#[test]
fn alternation_with_marked_tokens() {
    let g = GrammarDef {
        nodes: vec![GrammarNode {
            name: "Expr".to_string(),
            rule: Rule::Alt(vec![
                Rule::Token("#int_lit".to_string()),
                Rule::Token("plus".to_string()),
            ]),
        }],
    };
    let items = lower_grammar(&g);
    assert_eq!(items.len(), 1);
    match &items[0] {
        AstItem { name, kind: AstItemKind::Enum(variants) } => {
            assert_eq!(name, "Expr");
            // the unmarked `plus` token carries no data and is dropped
            assert_eq!(variants.len(), 1);
            assert!(matches!(&variants[0], Variant::Token(n) if n == "IntLit"));
        }
        other => panic!("unexpected item {other:?}"),
    }
}

#[test]
fn generated_source_is_exact() {
    let items = lower_grammar(&sample_grammar());
    let src = generate(&items);
    let expected = "use lang::green::GreenNode;\n\n\
        struct Root {\n    statements: Vec<Statement>,\n}\n\n\
        enum Statement {\n    Assign(Assign),\n    AliasStmt(AliasStmt),\n}\n\n\
        struct Assign {\n    target: Option<Place>,\n    int: GreenNode,\n}\n\n\
        struct AliasStmt {\n    place: Option<Place>,\n}\n\n";
    assert_eq!(src, expected);
}

#[test]
fn generation_is_deterministic() {
    let a = generate(&lower_grammar(&sample_grammar()));
    let b = generate(&lower_grammar(&sample_grammar()));
    assert_eq!(a, b);
}
