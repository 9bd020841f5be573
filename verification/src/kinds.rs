//! The syntax kind registry: a closed, totally ordered enumeration of token
//! kinds and composite node kinds.
//!
//! Every kind travels through a raw `u32` channel when trees are inspected
//! generically; this module is the single choke point that validates that
//! channel. Node kinds occupy a contiguous range of ordinals ending at the
//! terminal `ROOT` marker, and reconstruction from a raw integer performs an
//! explicit bounds check before interpreting the value.

use vstd::prelude::*;

verus! {

/// Kinds of leaf tokens and composite nodes of the syntax tree.
///
/// Leaf kinds come first, composite node kinds after them, and `ROOT` is the
/// last ordinal: a raw value above `ROOT`'s ordinal names no kind at all.
#[allow(non_camel_case_types)]
#[derive(Clone, Copy, Debug, PartialEq, Eq, Hash, Structural)]
pub enum SyntaxKind {
    // leaf tokens: symbols
    NEWLINE,
    CELL,
    EQ,
    INT,
    COLON,
    DOLLAR,
    // leaf tokens: keywords
    ALIAS_TOK,
    ENUM_TOK,
    // leaf tokens: data
    WHITESPACE,
    IDENT,
    STR,
    /// A run of source text no grammar alternative accepted; kept as a leaf
    /// so the tree stays lossless while an error is recorded for the span.
    ERROR,
    // composite nodes: expressions
    CELL_RANGE,
    PLACE,
    ALIAS_EXPR,
    ENUM_EXPR,
    EXPR,
    // composite nodes: statements
    ASSIGN,
    ALIAS_STMT,
    STATEMENT,
    /// The terminal marker: every tree's root, and the largest valid ordinal.
    ROOT,
}

/// The ordinal of each kind: the mathematical model of the raw channel.
pub open spec fn kind_raw(k: SyntaxKind) -> u32 {
    match k {
        SyntaxKind::NEWLINE => 0,
        SyntaxKind::CELL => 1,
        SyntaxKind::EQ => 2,
        SyntaxKind::INT => 3,
        SyntaxKind::COLON => 4,
        SyntaxKind::DOLLAR => 5,
        SyntaxKind::ALIAS_TOK => 6,
        SyntaxKind::ENUM_TOK => 7,
        SyntaxKind::WHITESPACE => 8,
        SyntaxKind::IDENT => 9,
        SyntaxKind::STR => 10,
        SyntaxKind::ERROR => 11,
        SyntaxKind::CELL_RANGE => 12,
        SyntaxKind::PLACE => 13,
        SyntaxKind::ALIAS_EXPR => 14,
        SyntaxKind::ENUM_EXPR => 15,
        SyntaxKind::EXPR => 16,
        SyntaxKind::ASSIGN => 17,
        SyntaxKind::ALIAS_STMT => 18,
        SyntaxKind::STATEMENT => 19,
        SyntaxKind::ROOT => 20,
    }
}

/// The ordinal of the terminal `ROOT` marker: the validity boundary.
pub const ROOT_RAW: u32 = 20;

/// True of the kinds that label composite nodes rather than leaf tokens.
pub open spec fn is_node_kind(k: SyntaxKind) -> bool {
    kind_raw(SyntaxKind::CELL_RANGE) <= kind_raw(k) <= kind_raw(SyntaxKind::ROOT)
}

impl SyntaxKind {
    /// Encode this kind as its raw ordinal. Total and injective.
    pub fn into_raw(self) -> (r: u32)
        ensures
            r == kind_raw(self),
    {
        match self {
            SyntaxKind::NEWLINE => 0,
            SyntaxKind::CELL => 1,
            SyntaxKind::EQ => 2,
            SyntaxKind::INT => 3,
            SyntaxKind::COLON => 4,
            SyntaxKind::DOLLAR => 5,
            SyntaxKind::ALIAS_TOK => 6,
            SyntaxKind::ENUM_TOK => 7,
            SyntaxKind::WHITESPACE => 8,
            SyntaxKind::IDENT => 9,
            SyntaxKind::STR => 10,
            SyntaxKind::ERROR => 11,
            SyntaxKind::CELL_RANGE => 12,
            SyntaxKind::PLACE => 13,
            SyntaxKind::ALIAS_EXPR => 14,
            SyntaxKind::ENUM_EXPR => 15,
            SyntaxKind::EXPR => 16,
            SyntaxKind::ASSIGN => 17,
            SyntaxKind::ALIAS_STMT => 18,
            SyntaxKind::STATEMENT => 19,
            SyntaxKind::ROOT => 20,
        }
    }

    /// Reconstruct a kind from a raw ordinal, rejecting out-of-range values
    /// with an explicit bounds check against the `ROOT` marker.
    pub fn from_raw(raw: u32) -> (r: Option<SyntaxKind>)
        ensures
            r is Some <==> raw <= ROOT_RAW,
            r is Some ==> kind_raw(r->0) == raw,
    {
        if raw > ROOT_RAW {
            None
        } else {
            Some(
                match raw {
                    0 => SyntaxKind::NEWLINE,
                    1 => SyntaxKind::CELL,
                    2 => SyntaxKind::EQ,
                    3 => SyntaxKind::INT,
                    4 => SyntaxKind::COLON,
                    5 => SyntaxKind::DOLLAR,
                    6 => SyntaxKind::ALIAS_TOK,
                    7 => SyntaxKind::ENUM_TOK,
                    8 => SyntaxKind::WHITESPACE,
                    9 => SyntaxKind::IDENT,
                    10 => SyntaxKind::STR,
                    11 => SyntaxKind::ERROR,
                    12 => SyntaxKind::CELL_RANGE,
                    13 => SyntaxKind::PLACE,
                    14 => SyntaxKind::ALIAS_EXPR,
                    15 => SyntaxKind::ENUM_EXPR,
                    16 => SyntaxKind::EXPR,
                    17 => SyntaxKind::ASSIGN,
                    18 => SyntaxKind::ALIAS_STMT,
                    19 => SyntaxKind::STATEMENT,
                    _ => SyntaxKind::ROOT,
                },
            )
        }
    }
}

/// The raw encoding is injective and bounded by the `ROOT` marker, so
/// `from_raw` after `into_raw` always restores the kind it was given.
pub proof fn lemma_kind_raw_injective(a: SyntaxKind, b: SyntaxKind)
    ensures
        kind_raw(a) <= ROOT_RAW,
        kind_raw(a) == kind_raw(b) ==> a == b,
{
}

} // verus!
