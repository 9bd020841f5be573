//! The grammar of the language, as a mathematical model.
//!
//! A program is a sequence of lines; each line is blank (optional horizontal
//! whitespace, then a newline) or a statement followed by a newline. A
//! statement is an alias declaration (`alias` keyword, identifier, `=`,
//! place) or an assignment (place, `=`, expression). A place is a cell range
//! (`cell:cell`), an alias reference (`$identifier`) or a bare cell (ASCII
//! letters then ASCII digits). An expression is an enum tag (`enum` keyword
//! then a place), an integer literal, or a place. Alternatives are tried in
//! the order listed and the first that matches wins.
//!
//! Every rule's model returns the position after the consumed text and the
//! tree elements it emits; a leaf first skips insignificant horizontal
//! whitespace, emitting it as a `WHITESPACE` token so the tree stays
//! lossless. The recovery model says what the parser does with a line no
//! alternative accepts: it keeps the longest assignment prefix as a partial
//! node, records one error, and skips to the end of the line, keeping the
//! skipped text as an `ERROR` token.

use vstd::prelude::*;

use crate::green::{model_text, models_text, ElemModel};
use crate::kinds::SyntaxKind;

verus! {

// ---------------------------------------------------------------------------
// Character classes.
// ---------------------------------------------------------------------------

/// Horizontal whitespace: a Unicode whitespace character other than newline.
/// The set is the Unicode `White_Space` property.
pub open spec fn is_line_ws(c: char) -> bool {
    let u = c as u32;
    ||| u == 0x09
    ||| u == 0x0b
    ||| u == 0x0c
    ||| u == 0x0d
    ||| u == 0x20
    ||| u == 0x85
    ||| u == 0xa0
    ||| u == 0x1680
    ||| (0x2000 <= u && u <= 0x200a)
    ||| u == 0x2028
    ||| u == 0x2029
    ||| u == 0x202f
    ||| u == 0x205f
    ||| u == 0x3000
}

/// An ASCII letter.
pub open spec fn is_ascii_alpha(c: char) -> bool {
    let u = c as u32;
    (0x41 <= u && u <= 0x5a) || (0x61 <= u && u <= 0x7a)
}

/// An ASCII digit.
pub open spec fn is_ascii_num(c: char) -> bool {
    let u = c as u32;
    0x30 <= u && u <= 0x39
}

/// A character that may open an identifier.
pub open spec fn is_ident_start(c: char) -> bool {
    is_ascii_alpha(c) || c == '_'
}

/// A character that may continue an identifier.
pub open spec fn is_ident_continue(c: char) -> bool {
    is_ascii_alpha(c) || is_ascii_num(c) || c == '_'
}

/// Any character other than newline: what error recovery skips over.
pub open spec fn is_not_newline(c: char) -> bool {
    c != '\n'
}

// ---------------------------------------------------------------------------
// Maximal-munch runs.
// ---------------------------------------------------------------------------

/// The end of the maximal run of characters satisfying `p`, starting at `i`.
pub open spec fn run_end(s: Seq<char>, i: int, p: spec_fn(char) -> bool) -> int
    decreases s.len() - i,
{
    if i < s.len() && p(s[i]) {
        run_end(s, i + 1, p)
    } else {
        i
    }
}

/// The end of the horizontal-whitespace run at `i`.
pub open spec fn ws_end(s: Seq<char>, i: int) -> int {
    run_end(s, i, |c: char| is_line_ws(c))
}

/// The end of the ASCII-letter run at `i`.
pub open spec fn alpha_end(s: Seq<char>, i: int) -> int {
    run_end(s, i, |c: char| is_ascii_alpha(c))
}

/// The end of the ASCII-digit run at `i`.
pub open spec fn digit_end(s: Seq<char>, i: int) -> int {
    run_end(s, i, |c: char| is_ascii_num(c))
}

/// The end of the identifier-continue run at `i`.
pub open spec fn ident_end(s: Seq<char>, i: int) -> int {
    run_end(s, i, |c: char| is_ident_continue(c))
}

/// The end of the current line: the position of the next newline, or the end
/// of the input.
pub open spec fn line_end(s: Seq<char>, i: int) -> int {
    run_end(s, i, |c: char| is_not_newline(c))
}

/// A maximal run stays within the input and never moves backwards.
pub proof fn lemma_run_end_bounds(s: Seq<char>, i: int, p: spec_fn(char) -> bool)
    requires
        0 <= i <= s.len(),
    ensures
        i <= run_end(s, i, p) <= s.len(),
    decreases s.len() - i,
{
    if i < s.len() && p(s[i]) {
        lemma_run_end_bounds(s, i + 1, p);
    }
}

// ---------------------------------------------------------------------------
// Model constructors.
// ---------------------------------------------------------------------------

/// A token model.
pub open spec fn tok(kind: SyntaxKind, text: Seq<char>) -> ElemModel {
    ElemModel::Token { kind, text }
}

/// A node model.
pub open spec fn node(kind: SyntaxKind, children: Seq<ElemModel>) -> ElemModel {
    ElemModel::Node { kind, children }
}

/// A matched rule: the position after the consumed text, and the elements
/// emitted for it.
pub type RuleMatch = (int, Seq<ElemModel>);

// ---------------------------------------------------------------------------
// Leaves. Each skips horizontal whitespace first, keeping it as a token.
// ---------------------------------------------------------------------------

/// Skipping insignificant whitespace: always succeeds, emits a `WHITESPACE`
/// token exactly when the run is non-empty.
pub open spec fn ws_model(s: Seq<char>, i: int) -> RuleMatch {
    let j = ws_end(s, i);
    if j > i {
        (j, seq![tok(SyntaxKind::WHITESPACE, s.subrange(i, j))])
    } else {
        (i, Seq::empty())
    }
}

/// A literal leaf: whitespace, then exactly `lit`, kept as one token of the
/// given kind.
pub open spec fn leaf_lit(s: Seq<char>, i: int, kind: SyntaxKind, lit: Seq<char>) -> Option<
    RuleMatch,
> {
    let (j, ws) = ws_model(s, i);
    if j + lit.len() <= s.len() && s.subrange(j, j + lit.len()) == lit {
        Some((j + lit.len(), ws.push(tok(kind, lit))))
    } else {
        None
    }
}

/// The `=` leaf.
pub open spec fn leaf_eq(s: Seq<char>, i: int) -> Option<RuleMatch> {
    leaf_lit(s, i, SyntaxKind::EQ, seq!['='])
}

/// The newline leaf.
pub open spec fn leaf_nl(s: Seq<char>, i: int) -> Option<RuleMatch> {
    leaf_lit(s, i, SyntaxKind::NEWLINE, seq!['\n'])
}

/// The `:` leaf.
pub open spec fn leaf_colon(s: Seq<char>, i: int) -> Option<RuleMatch> {
    leaf_lit(s, i, SyntaxKind::COLON, seq![':'])
}

/// The `$` leaf.
pub open spec fn leaf_dollar(s: Seq<char>, i: int) -> Option<RuleMatch> {
    leaf_lit(s, i, SyntaxKind::DOLLAR, seq!['$'])
}

/// The `alias` keyword leaf.
pub open spec fn leaf_alias_tok(s: Seq<char>, i: int) -> Option<RuleMatch> {
    leaf_lit(s, i, SyntaxKind::ALIAS_TOK, seq!['a', 'l', 'i', 'a', 's'])
}

/// The `enum` keyword leaf.
pub open spec fn leaf_enum_tok(s: Seq<char>, i: int) -> Option<RuleMatch> {
    leaf_lit(s, i, SyntaxKind::ENUM_TOK, seq!['e', 'n', 'u', 'm'])
}

/// A cell leaf: one or more ASCII letters, then one or more ASCII digits.
pub open spec fn leaf_cell(s: Seq<char>, i: int) -> Option<RuleMatch> {
    let (j, ws) = ws_model(s, i);
    let a = alpha_end(s, j);
    let d = digit_end(s, a);
    if a > j && d > a {
        Some((d, ws.push(tok(SyntaxKind::CELL, s.subrange(j, d)))))
    } else {
        None
    }
}

/// An integer leaf: one or more ASCII digits.
pub open spec fn leaf_int(s: Seq<char>, i: int) -> Option<RuleMatch> {
    let (j, ws) = ws_model(s, i);
    let d = digit_end(s, j);
    if d > j {
        Some((d, ws.push(tok(SyntaxKind::INT, s.subrange(j, d)))))
    } else {
        None
    }
}

/// An identifier leaf: a letter or underscore, then letters, digits and
/// underscores.
pub open spec fn leaf_ident(s: Seq<char>, i: int) -> Option<RuleMatch> {
    let (j, ws) = ws_model(s, i);
    if j < s.len() && is_ident_start(s[j]) {
        let e = ident_end(s, j + 1);
        Some((e, ws.push(tok(SyntaxKind::IDENT, s.subrange(j, e)))))
    } else {
        None
    }
}

// ---------------------------------------------------------------------------
// Composite nodes. Each wraps exactly what its parts emitted.
// ---------------------------------------------------------------------------

/// `cell : cell`, wrapped in a `CELL_RANGE` node.
pub open spec fn node_cell_range(s: Seq<char>, i: int) -> Option<RuleMatch> {
    match leaf_cell(s, i) {
        Option::None => Option::None,
        Option::Some(r1) => match leaf_colon(s, r1.0) {
            Option::None => Option::None,
            Option::Some(r2) => match leaf_cell(s, r2.0) {
                Option::None => Option::None,
                Option::Some(r3) => Option::Some(
                    (r3.0, seq![node(SyntaxKind::CELL_RANGE, r1.1 + r2.1 + r3.1)]),
                ),
            },
        },
    }
}

/// `$ identifier`, wrapped in an `ALIAS_EXPR` node.
pub open spec fn node_alias_expr(s: Seq<char>, i: int) -> Option<RuleMatch> {
    match leaf_dollar(s, i) {
        Option::None => Option::None,
        Option::Some(r1) => match leaf_ident(s, r1.0) {
            Option::None => Option::None,
            Option::Some(r2) => Option::Some(
                (r2.0, seq![node(SyntaxKind::ALIAS_EXPR, r1.1 + r2.1)]),
            ),
        },
    }
}

/// A place: a cell range, an alias reference, or a bare cell — the first
/// alternative that matches — wrapped in a `PLACE` node.
pub open spec fn node_place(s: Seq<char>, i: int) -> Option<RuleMatch> {
    let inner = match node_cell_range(s, i) {
        Option::Some(r) => Option::Some(r),
        Option::None => match node_alias_expr(s, i) {
            Option::Some(r) => Option::Some(r),
            Option::None => leaf_cell(s, i),
        },
    };
    match inner {
        Option::None => Option::None,
        Option::Some(r) => Option::Some((r.0, seq![node(SyntaxKind::PLACE, r.1)])),
    }
}

/// `enum place`, wrapped in an `ENUM_EXPR` node.
pub open spec fn node_enum_expr(s: Seq<char>, i: int) -> Option<RuleMatch> {
    match leaf_enum_tok(s, i) {
        Option::None => Option::None,
        Option::Some(r1) => match node_place(s, r1.0) {
            Option::None => Option::None,
            Option::Some(r2) => Option::Some(
                (r2.0, seq![node(SyntaxKind::ENUM_EXPR, r1.1 + r2.1)]),
            ),
        },
    }
}

/// An expression: an enum tag, an integer, or a place — the first that
/// matches — wrapped in an `EXPR` node.
pub open spec fn node_expr(s: Seq<char>, i: int) -> Option<RuleMatch> {
    let inner = match node_enum_expr(s, i) {
        Option::Some(r) => Option::Some(r),
        Option::None => match leaf_int(s, i) {
            Option::Some(r) => Option::Some(r),
            Option::None => node_place(s, i),
        },
    };
    match inner {
        Option::None => Option::None,
        Option::Some(r) => Option::Some((r.0, seq![node(SyntaxKind::EXPR, r.1)])),
    }
}

/// `place = expression`, wrapped in an `ASSIGN` node.
pub open spec fn node_assign(s: Seq<char>, i: int) -> Option<RuleMatch> {
    match node_place(s, i) {
        Option::None => Option::None,
        Option::Some(r1) => match leaf_eq(s, r1.0) {
            Option::None => Option::None,
            Option::Some(r2) => match node_expr(s, r2.0) {
                Option::None => Option::None,
                Option::Some(r3) => Option::Some(
                    (r3.0, seq![node(SyntaxKind::ASSIGN, r1.1 + r2.1 + r3.1)]),
                ),
            },
        },
    }
}

/// `alias identifier = place`, wrapped in an `ALIAS_STMT` node.
pub open spec fn node_alias_stmt(s: Seq<char>, i: int) -> Option<RuleMatch> {
    match leaf_alias_tok(s, i) {
        Option::None => Option::None,
        Option::Some(r1) => match leaf_ident(s, r1.0) {
            Option::None => Option::None,
            Option::Some(r2) => match leaf_eq(s, r2.0) {
                Option::None => Option::None,
                Option::Some(r3) => match node_place(s, r3.0) {
                    Option::None => Option::None,
                    Option::Some(r4) => Option::Some(
                        (r4.0, seq![node(SyntaxKind::ALIAS_STMT, r1.1 + r2.1 + r3.1 + r4.1)]),
                    ),
                },
            },
        },
    }
}

/// A statement line: an alias declaration or an assignment, then a newline,
/// all wrapped in a `STATEMENT` node.
pub open spec fn node_statement(s: Seq<char>, i: int) -> Option<RuleMatch> {
    let inner = match node_alias_stmt(s, i) {
        Option::Some(r) => Option::Some(r),
        Option::None => node_assign(s, i),
    };
    match inner {
        Option::None => Option::None,
        Option::Some(r1) => match leaf_nl(s, r1.0) {
            Option::None => Option::None,
            Option::Some(r2) => Option::Some(
                (r2.0, seq![node(SyntaxKind::STATEMENT, r1.1 + r2.1)]),
            ),
        },
    }
}

/// A blank line: optional horizontal whitespace, then a newline, emitted at
/// the top level without a wrapping node.
pub open spec fn blank_line(s: Seq<char>, i: int) -> Option<RuleMatch> {
    leaf_nl(s, i)
}

/// One line of the grammar proper: blank first, statement second.
pub open spec fn line_model(s: Seq<char>, i: int) -> Option<RuleMatch> {
    match blank_line(s, i) {
        Option::Some(r) => Option::Some(r),
        Option::None => node_statement(s, i),
    }
}

// ---------------------------------------------------------------------------
// Error recovery.
// ---------------------------------------------------------------------------

/// The model of one recorded error: a span and the unexpected character, or
/// none of it at end of input.
pub type ErrModel = (int, int, Option<char>);

/// The error recorded when parsing fails at position `i`: a one-character
/// span naming the character found there, or an empty span at end of input.
pub open spec fn err_model(s: Seq<char>, i: int) -> ErrModel {
    if i < s.len() {
        (i, i + 1, Option::Some(s[i]))
    } else {
        (i, i, Option::None)
    }
}

/// The longest prefix of an assignment at `i`: a place, then if possible the
/// `=`, then if possible the expression.
pub open spec fn partial_assign(s: Seq<char>, i: int) -> (int, Seq<ElemModel>) {
    match node_place(s, i) {
        Option::None => (i, Seq::empty()),
        Option::Some(r1) => match leaf_eq(s, r1.0) {
            Option::None => (r1.0, r1.1),
            Option::Some(r2) => match node_expr(s, r2.0) {
                Option::None => (r2.0, r1.1 + r2.1),
                Option::Some(r3) => (r3.0, r1.1 + r2.1 + r3.1),
            },
        },
    }
}

/// What the parser does with a line no grammar alternative accepts: keep the
/// leading whitespace, keep the longest assignment prefix as a partial
/// `ASSIGN` under a `STATEMENT`, record one error at the first unexpected
/// position, and skip the rest of the line as an `ERROR` token.
pub open spec fn recovery(s: Seq<char>, i: int) -> (int, Seq<ElemModel>, ErrModel) {
    let w = ws_model(s, i);
    let jw = w.0;
    if jw == s.len() {
        (jw, w.1, err_model(s, jw))
    } else {
        let pa = partial_assign(s, jw);
        let jp = pa.0;
        let wrapped = if jp > jw {
            w.1 + seq![node(SyntaxKind::STATEMENT, seq![node(SyntaxKind::ASSIGN, pa.1)])]
        } else {
            w.1
        };
        let ep = ws_end(s, jp);
        let eol = line_end(s, jp);
        let junk = if eol > jp {
            seq![tok(SyntaxKind::ERROR, s.subrange(jp, eol))]
        } else {
            Seq::empty()
        };
        (eol, wrapped + junk, err_model(s, ep))
    }
}

/// One line of the error-tolerant parser: the grammar line if it matches,
/// the recovery step otherwise.
pub open spec fn line_step(s: Seq<char>, i: int) -> (int, Seq<ElemModel>, Seq<ErrModel>) {
    match line_model(s, i) {
        Option::Some(r) => (r.0, r.1, Seq::empty()),
        Option::None => {
            let r = recovery(s, i);
            (r.0, r.1, seq![r.2])
        },
    }
}

/// The whole error-tolerant parse from position `i`: the elements emitted
/// under the root, and the errors recorded, in order.
pub open spec fn program_model(s: Seq<char>, i: int) -> (Seq<ElemModel>, Seq<ErrModel>)
    decreases s.len() - i,
{
    if !(0 <= i < s.len()) {
        (Seq::empty(), Seq::empty())
    } else {
        let st = line_step(s, i);
        if i < st.0 <= s.len() {
            let rest = program_model(s, st.0);
            (st.1 + rest.0, st.2 + rest.1)
        } else {
            (st.1, st.2)
        }
    }
}

/// Whether the input from `i` on matches the grammar completely: every line
/// is a blank line or a statement, through to the end of the input.
pub open spec fn program_ok(s: Seq<char>, i: int) -> bool
    decreases s.len() - i,
{
    if i >= s.len() {
        true
    } else {
        match line_model(s, i) {
            Option::Some(r) => i < r.0 <= s.len() && program_ok(s, r.0),
            Option::None => false,
        }
    }
}

// ---------------------------------------------------------------------------
// Bounds: every rule stays within the input, and every matched rule and every
// recovery step consumes at least one character.
// ---------------------------------------------------------------------------

/// Whitespace skipping stays within the input.
pub proof fn lemma_ws_model_bounds(s: Seq<char>, i: int)
    requires
        0 <= i <= s.len(),
    ensures
        i <= ws_model(s, i).0 <= s.len(),
{
    lemma_run_end_bounds(s, i, |c: char| is_line_ws(c));
}

/// A matched literal leaf makes progress and stays within the input.
pub proof fn lemma_leaf_lit_bounds(s: Seq<char>, i: int, kind: SyntaxKind, lit: Seq<char>)
    requires
        0 <= i <= s.len(),
        lit.len() >= 1,
        leaf_lit(s, i, kind, lit) is Some,
    ensures
        i < (leaf_lit(s, i, kind, lit)->0).0 <= s.len(),
{
    lemma_ws_model_bounds(s, i);
}

/// A matched cell leaf makes progress and stays within the input.
pub proof fn lemma_leaf_cell_bounds(s: Seq<char>, i: int)
    requires
        0 <= i <= s.len(),
        leaf_cell(s, i) is Some,
    ensures
        i < (leaf_cell(s, i)->0).0 <= s.len(),
{
    lemma_ws_model_bounds(s, i);
    let j = ws_model(s, i).0;
    lemma_run_end_bounds(s, j, |c: char| is_ascii_alpha(c));
    lemma_run_end_bounds(s, alpha_end(s, j), |c: char| is_ascii_num(c));
}

/// A matched integer leaf makes progress and stays within the input.
pub proof fn lemma_leaf_int_bounds(s: Seq<char>, i: int)
    requires
        0 <= i <= s.len(),
        leaf_int(s, i) is Some,
    ensures
        i < (leaf_int(s, i)->0).0 <= s.len(),
{
    lemma_ws_model_bounds(s, i);
    lemma_run_end_bounds(s, ws_model(s, i).0, |c: char| is_ascii_num(c));
}

/// A matched identifier leaf makes progress and stays within the input.
pub proof fn lemma_leaf_ident_bounds(s: Seq<char>, i: int)
    requires
        0 <= i <= s.len(),
        leaf_ident(s, i) is Some,
    ensures
        i < (leaf_ident(s, i)->0).0 <= s.len(),
{
    lemma_ws_model_bounds(s, i);
    lemma_run_end_bounds(s, ws_model(s, i).0 + 1, |c: char| is_ident_continue(c));
}

/// A matched cell range makes progress and stays within the input.
pub proof fn lemma_node_cell_range_bounds(s: Seq<char>, i: int)
    requires
        0 <= i <= s.len(),
        node_cell_range(s, i) is Some,
    ensures
        i < (node_cell_range(s, i)->0).0 <= s.len(),
{
    lemma_leaf_cell_bounds(s, i);
    let i1 = (leaf_cell(s, i)->0).0;
    lemma_leaf_lit_bounds(s, i1, SyntaxKind::COLON, seq![':']);
    let i2 = (leaf_colon(s, i1)->0).0;
    lemma_leaf_cell_bounds(s, i2);
}

/// A matched alias reference makes progress and stays within the input.
pub proof fn lemma_node_alias_expr_bounds(s: Seq<char>, i: int)
    requires
        0 <= i <= s.len(),
        node_alias_expr(s, i) is Some,
    ensures
        i < (node_alias_expr(s, i)->0).0 <= s.len(),
{
    lemma_leaf_lit_bounds(s, i, SyntaxKind::DOLLAR, seq!['$']);
    let i1 = (leaf_dollar(s, i)->0).0;
    lemma_leaf_ident_bounds(s, i1);
}

/// A matched place makes progress and stays within the input.
pub proof fn lemma_node_place_bounds(s: Seq<char>, i: int)
    requires
        0 <= i <= s.len(),
        node_place(s, i) is Some,
    ensures
        i < (node_place(s, i)->0).0 <= s.len(),
{
    if node_cell_range(s, i) is Some {
        lemma_node_cell_range_bounds(s, i);
    } else if node_alias_expr(s, i) is Some {
        lemma_node_alias_expr_bounds(s, i);
    } else {
        lemma_leaf_cell_bounds(s, i);
    }
}

/// A matched enum tag makes progress and stays within the input.
pub proof fn lemma_node_enum_expr_bounds(s: Seq<char>, i: int)
    requires
        0 <= i <= s.len(),
        node_enum_expr(s, i) is Some,
    ensures
        i < (node_enum_expr(s, i)->0).0 <= s.len(),
{
    lemma_leaf_lit_bounds(s, i, SyntaxKind::ENUM_TOK, seq!['e', 'n', 'u', 'm']);
    let i1 = (leaf_enum_tok(s, i)->0).0;
    lemma_node_place_bounds(s, i1);
}

/// A matched expression makes progress and stays within the input.
pub proof fn lemma_node_expr_bounds(s: Seq<char>, i: int)
    requires
        0 <= i <= s.len(),
        node_expr(s, i) is Some,
    ensures
        i < (node_expr(s, i)->0).0 <= s.len(),
{
    if node_enum_expr(s, i) is Some {
        lemma_node_enum_expr_bounds(s, i);
    } else if leaf_int(s, i) is Some {
        lemma_leaf_int_bounds(s, i);
    } else {
        lemma_node_place_bounds(s, i);
    }
}

/// A matched assignment makes progress and stays within the input.
pub proof fn lemma_node_assign_bounds(s: Seq<char>, i: int)
    requires
        0 <= i <= s.len(),
        node_assign(s, i) is Some,
    ensures
        i < (node_assign(s, i)->0).0 <= s.len(),
{
    lemma_node_place_bounds(s, i);
    let i1 = (node_place(s, i)->0).0;
    lemma_leaf_lit_bounds(s, i1, SyntaxKind::EQ, seq!['=']);
    let i2 = (leaf_eq(s, i1)->0).0;
    lemma_node_expr_bounds(s, i2);
}

/// A matched alias declaration makes progress and stays within the input.
pub proof fn lemma_node_alias_stmt_bounds(s: Seq<char>, i: int)
    requires
        0 <= i <= s.len(),
        node_alias_stmt(s, i) is Some,
    ensures
        i < (node_alias_stmt(s, i)->0).0 <= s.len(),
{
    lemma_leaf_lit_bounds(s, i, SyntaxKind::ALIAS_TOK, seq!['a', 'l', 'i', 'a', 's']);
    let i1 = (leaf_alias_tok(s, i)->0).0;
    lemma_leaf_ident_bounds(s, i1);
    let i2 = (leaf_ident(s, i1)->0).0;
    lemma_leaf_lit_bounds(s, i2, SyntaxKind::EQ, seq!['=']);
    let i3 = (leaf_eq(s, i2)->0).0;
    lemma_node_place_bounds(s, i3);
}

/// A matched statement makes progress and stays within the input.
pub proof fn lemma_node_statement_bounds(s: Seq<char>, i: int)
    requires
        0 <= i <= s.len(),
        node_statement(s, i) is Some,
    ensures
        i < (node_statement(s, i)->0).0 <= s.len(),
{
    let i1 = if node_alias_stmt(s, i) is Some {
        lemma_node_alias_stmt_bounds(s, i);
        (node_alias_stmt(s, i)->0).0
    } else {
        lemma_node_assign_bounds(s, i);
        (node_assign(s, i)->0).0
    };
    lemma_leaf_lit_bounds(s, i1, SyntaxKind::NEWLINE, seq!['\n']);
}

/// The partial-assignment prefix stays within the input.
pub proof fn lemma_partial_assign_bounds(s: Seq<char>, i: int)
    requires
        0 <= i <= s.len(),
    ensures
        i <= partial_assign(s, i).0 <= s.len(),
{
    if node_place(s, i) is Some {
        lemma_node_place_bounds(s, i);
        let i1 = (node_place(s, i)->0).0;
        if leaf_eq(s, i1) is Some {
            lemma_leaf_lit_bounds(s, i1, SyntaxKind::EQ, seq!['=']);
            let i2 = (leaf_eq(s, i1)->0).0;
            if node_expr(s, i2) is Some {
                lemma_node_expr_bounds(s, i2);
            }
        }
    }
}

/// Recovery makes progress and stays within the input.
pub proof fn lemma_recovery_bounds(s: Seq<char>, i: int)
    requires
        0 <= i < s.len(),
        blank_line(s, i) is None,
    ensures
        i < recovery(s, i).0 <= s.len(),
{
    lemma_ws_model_bounds(s, i);
    let jw = ws_model(s, i).0;
    if jw < s.len() {
        lemma_partial_assign_bounds(s, jw);
        let jp = partial_assign(s, jw).0;
        lemma_run_end_bounds(s, jp, |c: char| is_not_newline(c));
        if jp == jw {
            // blank_line failed and there is a character here, so it is not a
            // newline and the junk skip moves past it.
            assert(s.subrange(jw, jw + 1) =~= seq![s[jw]]);
            assert(s[jw] != '\n');
            assert(is_not_newline(s[jw]));
            assert(run_end(s, jp, |c: char| is_not_newline(c)) == run_end(
                s,
                jp + 1,
                |c: char| is_not_newline(c),
            ));
            lemma_run_end_bounds(s, jp + 1, |c: char| is_not_newline(c));
            assert(line_end(s, jp) > jp);
        }
    }
}

// ---------------------------------------------------------------------------
// Losslessness: every rule emits exactly the text it consumed.
// ---------------------------------------------------------------------------

/// The text of a single element.
pub proof fn lemma_models_text_one(m: ElemModel)
    ensures
        models_text(seq![m]) == model_text(m),
{
    assert(seq![m][0] == m);
    assert(seq![m].drop_first() =~= Seq::<ElemModel>::empty());
    assert(models_text(seq![m]) == model_text(m) + models_text(Seq::<ElemModel>::empty()));
    assert(model_text(m) + Seq::<char>::empty() =~= model_text(m));
}

/// Adjacent subranges concatenate.
pub proof fn lemma_subrange_chain(s: Seq<char>, i: int, j: int, k: int)
    requires
        0 <= i <= j <= k <= s.len(),
    ensures
        s.subrange(i, j) + s.subrange(j, k) == s.subrange(i, k),
{
    assert(s.subrange(i, j) + s.subrange(j, k) =~= s.subrange(i, k));
}

/// Whitespace skipping emits exactly the skipped text.
pub proof fn lemma_ws_model_text(s: Seq<char>, i: int)
    requires
        0 <= i <= s.len(),
    ensures
        models_text(ws_model(s, i).1) == s.subrange(i, ws_model(s, i).0),
{
    lemma_ws_model_bounds(s, i);
    let j = ws_model(s, i).0;
    if j > i {
        lemma_models_text_one(tok(SyntaxKind::WHITESPACE, s.subrange(i, j)));
    } else {
        assert(s.subrange(i, i) =~= Seq::<char>::empty());
    }
}

/// A matched literal leaf emits exactly the text it consumed.
pub proof fn lemma_leaf_lit_text(s: Seq<char>, i: int, kind: SyntaxKind, lit: Seq<char>)
    requires
        0 <= i <= s.len(),
        leaf_lit(s, i, kind, lit) is Some,
    ensures
        models_text((leaf_lit(s, i, kind, lit)->0).1) == s.subrange(
            i,
            (leaf_lit(s, i, kind, lit)->0).0,
        ),
{
    lemma_ws_model_bounds(s, i);
    lemma_ws_model_text(s, i);
    let w = ws_model(s, i);
    let j = w.0;
    let n = lit.len() as int;
    crate::green::lemma_models_text_push(w.1, tok(kind, lit));
    lemma_subrange_chain(s, i, j, j + n);
    assert(models_text(w.1.push(tok(kind, lit))) =~= s.subrange(i, j + n));
}

/// A matched cell leaf emits exactly the text it consumed.
pub proof fn lemma_leaf_cell_text(s: Seq<char>, i: int)
    requires
        0 <= i <= s.len(),
        leaf_cell(s, i) is Some,
    ensures
        models_text((leaf_cell(s, i)->0).1) == s.subrange(i, (leaf_cell(s, i)->0).0),
{
    lemma_ws_model_bounds(s, i);
    lemma_ws_model_text(s, i);
    let w = ws_model(s, i);
    let j = w.0;
    let a = alpha_end(s, j);
    let d = digit_end(s, a);
    lemma_run_end_bounds(s, j, |c: char| is_ascii_alpha(c));
    lemma_run_end_bounds(s, a, |c: char| is_ascii_num(c));
    crate::green::lemma_models_text_push(w.1, tok(SyntaxKind::CELL, s.subrange(j, d)));
    lemma_subrange_chain(s, i, j, d);
    assert(models_text(w.1.push(tok(SyntaxKind::CELL, s.subrange(j, d)))) =~= s.subrange(i, d));
}

/// A matched integer leaf emits exactly the text it consumed.
pub proof fn lemma_leaf_int_text(s: Seq<char>, i: int)
    requires
        0 <= i <= s.len(),
        leaf_int(s, i) is Some,
    ensures
        models_text((leaf_int(s, i)->0).1) == s.subrange(i, (leaf_int(s, i)->0).0),
{
    lemma_ws_model_bounds(s, i);
    lemma_ws_model_text(s, i);
    let w = ws_model(s, i);
    let j = w.0;
    let d = digit_end(s, j);
    lemma_run_end_bounds(s, j, |c: char| is_ascii_num(c));
    crate::green::lemma_models_text_push(w.1, tok(SyntaxKind::INT, s.subrange(j, d)));
    lemma_subrange_chain(s, i, j, d);
    assert(models_text(w.1.push(tok(SyntaxKind::INT, s.subrange(j, d)))) =~= s.subrange(i, d));
}

/// A matched identifier leaf emits exactly the text it consumed.
pub proof fn lemma_leaf_ident_text(s: Seq<char>, i: int)
    requires
        0 <= i <= s.len(),
        leaf_ident(s, i) is Some,
    ensures
        models_text((leaf_ident(s, i)->0).1) == s.subrange(i, (leaf_ident(s, i)->0).0),
{
    lemma_ws_model_bounds(s, i);
    lemma_ws_model_text(s, i);
    let w = ws_model(s, i);
    let j = w.0;
    let e = ident_end(s, j + 1);
    lemma_run_end_bounds(s, j + 1, |c: char| is_ident_continue(c));
    crate::green::lemma_models_text_push(w.1, tok(SyntaxKind::IDENT, s.subrange(j, e)));
    lemma_subrange_chain(s, i, j, e);
    assert(models_text(w.1.push(tok(SyntaxKind::IDENT, s.subrange(j, e)))) =~= s.subrange(i, e));
}

/// A matched cell range emits exactly the text it consumed.
pub proof fn lemma_node_cell_range_text(s: Seq<char>, i: int)
    requires
        0 <= i <= s.len(),
        node_cell_range(s, i) is Some,
    ensures
        models_text((node_cell_range(s, i)->0).1) == s.subrange(
            i,
            (node_cell_range(s, i)->0).0,
        ),
{
    let r1 = leaf_cell(s, i)->0;
    let r2 = leaf_colon(s, r1.0)->0;
    let r3 = leaf_cell(s, r2.0)->0;
    lemma_leaf_cell_bounds(s, i);
    lemma_leaf_cell_text(s, i);
    lemma_leaf_lit_bounds(s, r1.0, SyntaxKind::COLON, seq![':']);
    lemma_leaf_lit_text(s, r1.0, SyntaxKind::COLON, seq![':']);
    lemma_leaf_cell_bounds(s, r2.0);
    lemma_leaf_cell_text(s, r2.0);
    crate::green::lemma_models_text_add(r1.1, r2.1);
    crate::green::lemma_models_text_add(r1.1 + r2.1, r3.1);
    lemma_subrange_chain(s, i, r1.0, r2.0);
    lemma_subrange_chain(s, i, r2.0, r3.0);
    lemma_models_text_one(node(SyntaxKind::CELL_RANGE, r1.1 + r2.1 + r3.1));
}

/// A matched alias reference emits exactly the text it consumed.
pub proof fn lemma_node_alias_expr_text(s: Seq<char>, i: int)
    requires
        0 <= i <= s.len(),
        node_alias_expr(s, i) is Some,
    ensures
        models_text((node_alias_expr(s, i)->0).1) == s.subrange(
            i,
            (node_alias_expr(s, i)->0).0,
        ),
{
    let r1 = leaf_dollar(s, i)->0;
    let r2 = leaf_ident(s, r1.0)->0;
    lemma_leaf_lit_bounds(s, i, SyntaxKind::DOLLAR, seq!['$']);
    lemma_leaf_lit_text(s, i, SyntaxKind::DOLLAR, seq!['$']);
    lemma_leaf_ident_bounds(s, r1.0);
    lemma_leaf_ident_text(s, r1.0);
    crate::green::lemma_models_text_add(r1.1, r2.1);
    lemma_subrange_chain(s, i, r1.0, r2.0);
    lemma_models_text_one(node(SyntaxKind::ALIAS_EXPR, r1.1 + r2.1));
}

/// A matched place emits exactly the text it consumed.
pub proof fn lemma_node_place_text(s: Seq<char>, i: int)
    requires
        0 <= i <= s.len(),
        node_place(s, i) is Some,
    ensures
        models_text((node_place(s, i)->0).1) == s.subrange(i, (node_place(s, i)->0).0),
{
    if node_cell_range(s, i) is Some {
        lemma_node_cell_range_text(s, i);
        lemma_models_text_one(node(SyntaxKind::PLACE, (node_cell_range(s, i)->0).1));
    } else if node_alias_expr(s, i) is Some {
        lemma_node_alias_expr_text(s, i);
        lemma_models_text_one(node(SyntaxKind::PLACE, (node_alias_expr(s, i)->0).1));
    } else {
        lemma_leaf_cell_text(s, i);
        lemma_models_text_one(node(SyntaxKind::PLACE, (leaf_cell(s, i)->0).1));
    }
}

/// A matched enum tag emits exactly the text it consumed.
pub proof fn lemma_node_enum_expr_text(s: Seq<char>, i: int)
    requires
        0 <= i <= s.len(),
        node_enum_expr(s, i) is Some,
    ensures
        models_text((node_enum_expr(s, i)->0).1) == s.subrange(
            i,
            (node_enum_expr(s, i)->0).0,
        ),
{
    let r1 = leaf_enum_tok(s, i)->0;
    let r2 = node_place(s, r1.0)->0;
    lemma_leaf_lit_bounds(s, i, SyntaxKind::ENUM_TOK, seq!['e', 'n', 'u', 'm']);
    lemma_leaf_lit_text(s, i, SyntaxKind::ENUM_TOK, seq!['e', 'n', 'u', 'm']);
    lemma_node_place_bounds(s, r1.0);
    lemma_node_place_text(s, r1.0);
    crate::green::lemma_models_text_add(r1.1, r2.1);
    lemma_subrange_chain(s, i, r1.0, r2.0);
    lemma_models_text_one(node(SyntaxKind::ENUM_EXPR, r1.1 + r2.1));
}

/// A matched expression emits exactly the text it consumed.
pub proof fn lemma_node_expr_text(s: Seq<char>, i: int)
    requires
        0 <= i <= s.len(),
        node_expr(s, i) is Some,
    ensures
        models_text((node_expr(s, i)->0).1) == s.subrange(i, (node_expr(s, i)->0).0),
{
    if node_enum_expr(s, i) is Some {
        lemma_node_enum_expr_text(s, i);
        lemma_models_text_one(node(SyntaxKind::EXPR, (node_enum_expr(s, i)->0).1));
    } else if leaf_int(s, i) is Some {
        lemma_leaf_int_text(s, i);
        lemma_models_text_one(node(SyntaxKind::EXPR, (leaf_int(s, i)->0).1));
    } else {
        lemma_node_place_text(s, i);
        lemma_models_text_one(node(SyntaxKind::EXPR, (node_place(s, i)->0).1));
    }
}

/// A matched assignment emits exactly the text it consumed.
pub proof fn lemma_node_assign_text(s: Seq<char>, i: int)
    requires
        0 <= i <= s.len(),
        node_assign(s, i) is Some,
    ensures
        models_text((node_assign(s, i)->0).1) == s.subrange(i, (node_assign(s, i)->0).0),
{
    let r1 = node_place(s, i)->0;
    let r2 = leaf_eq(s, r1.0)->0;
    let r3 = node_expr(s, r2.0)->0;
    lemma_node_place_bounds(s, i);
    lemma_node_place_text(s, i);
    lemma_leaf_lit_bounds(s, r1.0, SyntaxKind::EQ, seq!['=']);
    lemma_leaf_lit_text(s, r1.0, SyntaxKind::EQ, seq!['=']);
    lemma_node_expr_bounds(s, r2.0);
    lemma_node_expr_text(s, r2.0);
    crate::green::lemma_models_text_add(r1.1, r2.1);
    crate::green::lemma_models_text_add(r1.1 + r2.1, r3.1);
    lemma_subrange_chain(s, i, r1.0, r2.0);
    lemma_subrange_chain(s, i, r2.0, r3.0);
    lemma_models_text_one(node(SyntaxKind::ASSIGN, r1.1 + r2.1 + r3.1));
}

/// A matched alias declaration emits exactly the text it consumed.
pub proof fn lemma_node_alias_stmt_text(s: Seq<char>, i: int)
    requires
        0 <= i <= s.len(),
        node_alias_stmt(s, i) is Some,
    ensures
        models_text((node_alias_stmt(s, i)->0).1) == s.subrange(
            i,
            (node_alias_stmt(s, i)->0).0,
        ),
{
    let r1 = leaf_alias_tok(s, i)->0;
    let r2 = leaf_ident(s, r1.0)->0;
    let r3 = leaf_eq(s, r2.0)->0;
    let r4 = node_place(s, r3.0)->0;
    lemma_leaf_lit_bounds(s, i, SyntaxKind::ALIAS_TOK, seq!['a', 'l', 'i', 'a', 's']);
    lemma_leaf_lit_text(s, i, SyntaxKind::ALIAS_TOK, seq!['a', 'l', 'i', 'a', 's']);
    lemma_leaf_ident_bounds(s, r1.0);
    lemma_leaf_ident_text(s, r1.0);
    lemma_leaf_lit_bounds(s, r2.0, SyntaxKind::EQ, seq!['=']);
    lemma_leaf_lit_text(s, r2.0, SyntaxKind::EQ, seq!['=']);
    lemma_node_place_bounds(s, r3.0);
    lemma_node_place_text(s, r3.0);
    crate::green::lemma_models_text_add(r1.1, r2.1);
    crate::green::lemma_models_text_add(r1.1 + r2.1, r3.1);
    crate::green::lemma_models_text_add(r1.1 + r2.1 + r3.1, r4.1);
    lemma_subrange_chain(s, i, r1.0, r2.0);
    lemma_subrange_chain(s, i, r2.0, r3.0);
    lemma_subrange_chain(s, i, r3.0, r4.0);
    lemma_models_text_one(node(SyntaxKind::ALIAS_STMT, r1.1 + r2.1 + r3.1 + r4.1));
}

/// A matched statement emits exactly the text it consumed.
pub proof fn lemma_node_statement_text(s: Seq<char>, i: int)
    requires
        0 <= i <= s.len(),
        node_statement(s, i) is Some,
    ensures
        models_text((node_statement(s, i)->0).1) == s.subrange(
            i,
            (node_statement(s, i)->0).0,
        ),
{
    let r1 = if node_alias_stmt(s, i) is Some {
        lemma_node_alias_stmt_bounds(s, i);
        lemma_node_alias_stmt_text(s, i);
        node_alias_stmt(s, i)->0
    } else {
        lemma_node_assign_bounds(s, i);
        lemma_node_assign_text(s, i);
        node_assign(s, i)->0
    };
    let r2 = leaf_nl(s, r1.0)->0;
    lemma_leaf_lit_bounds(s, r1.0, SyntaxKind::NEWLINE, seq!['\n']);
    lemma_leaf_lit_text(s, r1.0, SyntaxKind::NEWLINE, seq!['\n']);
    crate::green::lemma_models_text_add(r1.1, r2.1);
    lemma_subrange_chain(s, i, r1.0, r2.0);
    lemma_models_text_one(node(SyntaxKind::STATEMENT, r1.1 + r2.1));
}

/// The partial-assignment prefix emits exactly the text it consumed.
pub proof fn lemma_partial_assign_text(s: Seq<char>, i: int)
    requires
        0 <= i <= s.len(),
    ensures
        models_text(partial_assign(s, i).1) == s.subrange(i, partial_assign(s, i).0),
{
    if node_place(s, i) is None {
        assert(s.subrange(i, i) =~= Seq::<char>::empty());
    } else {
        let r1 = node_place(s, i)->0;
        lemma_node_place_bounds(s, i);
        lemma_node_place_text(s, i);
        if leaf_eq(s, r1.0) is Some {
            let r2 = leaf_eq(s, r1.0)->0;
            lemma_leaf_lit_bounds(s, r1.0, SyntaxKind::EQ, seq!['=']);
            lemma_leaf_lit_text(s, r1.0, SyntaxKind::EQ, seq!['=']);
            crate::green::lemma_models_text_add(r1.1, r2.1);
            lemma_subrange_chain(s, i, r1.0, r2.0);
            if node_expr(s, r2.0) is Some {
                let r3 = node_expr(s, r2.0)->0;
                lemma_node_expr_bounds(s, r2.0);
                lemma_node_expr_text(s, r2.0);
                crate::green::lemma_models_text_add(r1.1 + r2.1, r3.1);
                lemma_subrange_chain(s, i, r2.0, r3.0);
            }
        }
    }
}

/// Recovery emits exactly the text it consumed.
pub proof fn lemma_recovery_text(s: Seq<char>, i: int)
    requires
        0 <= i <= s.len(),
    ensures
        models_text(recovery(s, i).1) == s.subrange(i, recovery(s, i).0),
{
    lemma_ws_model_bounds(s, i);
    lemma_ws_model_text(s, i);
    let w = ws_model(s, i);
    let jw = w.0;
    if jw == s.len() {
    } else {
        lemma_partial_assign_bounds(s, jw);
        lemma_partial_assign_text(s, jw);
        let pa = partial_assign(s, jw);
        let jp = pa.0;
        let eol = line_end(s, jp);
        lemma_run_end_bounds(s, jp, |c: char| is_not_newline(c));
        let wrapped = if jp > jw {
            w.1 + seq![node(SyntaxKind::STATEMENT, seq![node(SyntaxKind::ASSIGN, pa.1)])]
        } else {
            w.1
        };
        if jp > jw {
            lemma_models_text_one(node(SyntaxKind::ASSIGN, pa.1));
            lemma_models_text_one(
                node(
                    SyntaxKind::STATEMENT,
                    seq![node(SyntaxKind::ASSIGN, pa.1)],
                ),
            );
            crate::green::lemma_models_text_add(
                w.1,
                seq![node(SyntaxKind::STATEMENT, seq![node(SyntaxKind::ASSIGN, pa.1)])],
            );
            lemma_subrange_chain(s, i, jw, jp);
        } else {
            assert(s.subrange(jw, jw) =~= Seq::<char>::empty());
        }
        assert(models_text(wrapped) == s.subrange(i, jp));
        if eol > jp {
            lemma_models_text_one(tok(SyntaxKind::ERROR, s.subrange(jp, eol)));
            crate::green::lemma_models_text_add(
                wrapped,
                seq![tok(SyntaxKind::ERROR, s.subrange(jp, eol))],
            );
            lemma_subrange_chain(s, i, jp, eol);
        } else {
            assert(wrapped + Seq::<ElemModel>::empty() =~= wrapped);
        }
    }
}

/// A grammar line emits exactly the text it consumed.
pub proof fn lemma_line_step_text(s: Seq<char>, i: int)
    requires
        0 <= i <= s.len(),
    ensures
        models_text(line_step(s, i).1) == s.subrange(i, line_step(s, i).0),
{
    match line_model(s, i) {
        Option::Some(r) => {
            if blank_line(s, i) is Some {
                lemma_leaf_lit_text(s, i, SyntaxKind::NEWLINE, seq!['\n']);
            } else {
                lemma_node_statement_text(s, i);
            }
        },
        Option::None => {
            lemma_recovery_text(s, i);
        },
    }
}

/// The whole parse emits exactly the input from `i` to the end: losslessness.
pub proof fn lemma_program_text(s: Seq<char>, i: int)
    requires
        0 <= i <= s.len(),
    ensures
        models_text(program_model(s, i).0) == s.subrange(i, s.len() as int),
    decreases s.len() - i,
{
    if i == s.len() {
        assert(s.subrange(i, i) =~= Seq::<char>::empty());
    } else {
        lemma_line_step_progress(s, i);
        lemma_line_step_text(s, i);
        let st = line_step(s, i);
        lemma_program_text(s, st.0);
        crate::green::lemma_models_text_add(st.1, program_model(s, st.0).0);
        lemma_subrange_chain(s, i, st.0, s.len() as int);
    }
}

/// Whether an input parses without errors is exactly whether it matches the
/// grammar completely.
pub proof fn lemma_program_ok_iff(s: Seq<char>, i: int)
    requires
        0 <= i <= s.len(),
    ensures
        program_model(s, i).1.len() == 0 <==> program_ok(s, i),
    decreases s.len() - i,
{
    if i < s.len() {
        lemma_line_step_progress(s, i);
        let st = line_step(s, i);
        lemma_program_ok_iff(s, st.0);
    }
}

/// Every line step makes progress and stays within the input.
pub proof fn lemma_line_step_progress(s: Seq<char>, i: int)
    requires
        0 <= i < s.len(),
    ensures
        i < line_step(s, i).0 <= s.len(),
{
    match line_model(s, i) {
        Option::Some(r) => {
            if blank_line(s, i) is Some {
                lemma_leaf_lit_bounds(s, i, SyntaxKind::NEWLINE, seq!['\n']);
            } else {
                lemma_node_statement_bounds(s, i);
            }
        },
        Option::None => {
            lemma_recovery_bounds(s, i);
        },
    }
}

} // verus!
