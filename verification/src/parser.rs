//! The executable parser: a recursive-descent walk over the input that
//! drives the tree builder, records structured errors, and always produces a
//! complete tree.
//!
//! Every rule function is proved against the grammar model: on success it
//! advances exactly to the model's end position and extends the current
//! builder frame by exactly the model's elements; on failure it restores the
//! position and the builder to what they were. `parse` at the top composes
//! the lines: its result is the modelled tree, its errors are the modelled
//! errors, and the tree's text is the input, exactly.

use vstd::prelude::*;
use vstd::string::StrSliceExecFns;
use vstd::string::StringExecFns;

use crate::builder::{
    lemma_revert_restores, lemma_stack_emit_extend, lemma_stack_extend_extend,
    lemma_stack_extend_nil, lemma_wrap_extend, stack_extend, Checkpoint, FrameModel, TreeBuilder,
};
use crate::grammar::{
    alpha_end, digit_end, ident_end, is_ascii_alpha, is_ascii_num, is_ident_continue,
    is_ident_start, is_line_ws, is_not_newline, leaf_alias_tok, leaf_cell, leaf_colon,
    leaf_dollar, leaf_enum_tok, leaf_eq, leaf_ident, leaf_int, leaf_lit, leaf_nl,
    lemma_run_end_bounds, line_end, node_alias_expr, node_alias_stmt, node_assign,
    err_model, lemma_line_step_progress, line_model, line_step, node_cell_range,
    node_enum_expr, node_expr, node_place, node_statement, partial_assign, program_model,
    program_ok, recovery, tok, ws_end, ws_model, ErrModel,
};
use crate::green::{ElemModel, GreenNode};
use crate::kinds::SyntaxKind;
use crate::strings::chars_of;

verus! {

/// A recoverable syntax error: the byte span of the unexpected input, in
/// character positions, and the character found there — none at end of
/// input.
#[derive(Clone, Copy, Debug, PartialEq, Eq)]
pub struct ParseError {
    pub start: usize,
    pub end: usize,
    pub found: Option<char>,
}

/// The model of one recorded error.
pub open spec fn err_of(e: ParseError) -> ErrModel {
    (e.start as int, e.end as int, e.found)
}

/// The models of the recorded errors, in order.
pub open spec fn errors_model(es: Seq<ParseError>) -> Seq<ErrModel> {
    es.map(|i: int, e: ParseError| err_of(e))
}

/// Recording one more error appends its model.
pub proof fn lemma_errors_model_push(es: Seq<ParseError>, e: ParseError)
    ensures
        errors_model(es.push(e)) == errors_model(es).push(err_of(e)),
{
    assert(errors_model(es.push(e)) =~= errors_model(es).push(err_of(e)));
}

/// The parser's working state: the input twice (as a string for slicing, as
/// characters for scanning), the cursor, the tree under construction, and
/// the errors recorded so far.
struct Parser<'a> {
    text: &'a str,
    chars: Vec<char>,
    pos: usize,
    builder: TreeBuilder,
    errors: Vec<ParseError>,
}

/// The parser's invariant: the two copies of the input agree, the cursor is
/// within bounds, and at least one builder frame is open.
spec fn inv(p: Parser) -> bool {
    &&& p.chars@ == p.text@
    &&& p.pos <= p.chars@.len()
    &&& p.builder@.len() >= 1
}

/// What every rule function leaves untouched.
spec fn keeps(o: Parser, n: Parser) -> bool {
    &&& n.text == o.text
    &&& n.chars@ == o.chars@
    &&& n.builder@.len() == o.builder@.len()
}

// ---------------------------------------------------------------------------
// Input access.
// ---------------------------------------------------------------------------

/// The exact source text between two character positions, as an owned
/// string.
fn take_text(text: &str, from: usize, to: usize) -> (t: String)
    requires
        from <= to <= text@.len(),
    ensures
        t@ == text@.subrange(from as int, to as int),
{
    text.substring_char(from, to).to_owned()
}

// ---------------------------------------------------------------------------
// Character classes, executable forms.
// ---------------------------------------------------------------------------

/// Whether `c` is horizontal whitespace.
fn line_ws(c: char) -> (r: bool)
    ensures
        r == is_line_ws(c),
{
    let u = c as u32;
    u == 0x09 || u == 0x0b || u == 0x0c || u == 0x0d || u == 0x20 || u == 0x85 || u == 0xa0
        || u == 0x1680 || (0x2000 <= u && u <= 0x200a) || u == 0x2028 || u == 0x2029
        || u == 0x202f || u == 0x205f || u == 0x3000
}

/// Whether `c` is an ASCII letter.
fn ascii_alpha(c: char) -> (r: bool)
    ensures
        r == is_ascii_alpha(c),
{
    let u = c as u32;
    (0x41 <= u && u <= 0x5a) || (0x61 <= u && u <= 0x7a)
}

/// Whether `c` is an ASCII digit.
fn ascii_num(c: char) -> (r: bool)
    ensures
        r == is_ascii_num(c),
{
    let u = c as u32;
    0x30 <= u && u <= 0x39
}

/// Whether `c` may continue an identifier.
fn ident_continue(c: char) -> (r: bool)
    ensures
        r == is_ident_continue(c),
{
    ascii_alpha(c) || ascii_num(c) || c == '_'
}

/// Whether `c` may open an identifier.
fn ident_start(c: char) -> (r: bool)
    ensures
        r == is_ident_start(c),
{
    ascii_alpha(c) || c == '_'
}

// ---------------------------------------------------------------------------
// Maximal-munch scanners.
// ---------------------------------------------------------------------------

/// Scan past horizontal whitespace.
fn scan_ws(chars: &Vec<char>, start: usize) -> (j: usize)
    requires
        start <= chars@.len(),
    ensures
        j as int == ws_end(chars@, start as int),
        start <= j <= chars@.len(),
{
    let n = chars.len();
    let mut i = start;
    while i < n && line_ws(chars[i])
        invariant
            start <= i <= n,
            n == chars@.len(),
            ws_end(chars@, start as int) == ws_end(chars@, i as int),
        decreases n - i,
    {
        i = i + 1;
    }
    proof {
        lemma_run_end_bounds(chars@, i as int, |c: char| is_line_ws(c));
    }
    i
}

/// Scan past ASCII letters.
fn scan_alpha(chars: &Vec<char>, start: usize) -> (j: usize)
    requires
        start <= chars@.len(),
    ensures
        j as int == alpha_end(chars@, start as int),
        start <= j <= chars@.len(),
{
    let n = chars.len();
    let mut i = start;
    while i < n && ascii_alpha(chars[i])
        invariant
            start <= i <= n,
            n == chars@.len(),
            alpha_end(chars@, start as int) == alpha_end(chars@, i as int),
        decreases n - i,
    {
        i = i + 1;
    }
    proof {
        lemma_run_end_bounds(chars@, i as int, |c: char| is_ascii_alpha(c));
    }
    i
}

/// Scan past ASCII digits.
fn scan_digit(chars: &Vec<char>, start: usize) -> (j: usize)
    requires
        start <= chars@.len(),
    ensures
        j as int == digit_end(chars@, start as int),
        start <= j <= chars@.len(),
{
    let n = chars.len();
    let mut i = start;
    while i < n && ascii_num(chars[i])
        invariant
            start <= i <= n,
            n == chars@.len(),
            digit_end(chars@, start as int) == digit_end(chars@, i as int),
        decreases n - i,
    {
        i = i + 1;
    }
    proof {
        lemma_run_end_bounds(chars@, i as int, |c: char| is_ascii_num(c));
    }
    i
}

/// Scan past identifier-continue characters.
fn scan_ident(chars: &Vec<char>, start: usize) -> (j: usize)
    requires
        start <= chars@.len(),
    ensures
        j as int == ident_end(chars@, start as int),
        start <= j <= chars@.len(),
{
    let n = chars.len();
    let mut i = start;
    while i < n && ident_continue(chars[i])
        invariant
            start <= i <= n,
            n == chars@.len(),
            ident_end(chars@, start as int) == ident_end(chars@, i as int),
        decreases n - i,
    {
        i = i + 1;
    }
    proof {
        lemma_run_end_bounds(chars@, i as int, |c: char| is_ident_continue(c));
    }
    i
}

/// Scan to the end of the current line.
fn scan_line(chars: &Vec<char>, start: usize) -> (j: usize)
    requires
        start <= chars@.len(),
    ensures
        j as int == line_end(chars@, start as int),
        start <= j <= chars@.len(),
{
    let n = chars.len();
    let mut i = start;
    while i < n && chars[i] != '\n'
        invariant
            start <= i <= n,
            n == chars@.len(),
            line_end(chars@, start as int) == line_end(chars@, i as int),
        decreases n - i,
    {
        i = i + 1;
    }
    proof {
        lemma_run_end_bounds(chars@, i as int, |c: char| is_not_newline(c));
    }
    i
}

// ---------------------------------------------------------------------------
// Whitespace and literal leaves.
// ---------------------------------------------------------------------------

/// Skip insignificant whitespace, keeping it as a `WHITESPACE` token when
/// there is any.
fn emit_ws(p: &mut Parser)
    requires
        inv(*old(p)),
    ensures
        inv(*final(p)),
        keeps(*old(p), *final(p)),
        final(p).errors@ == old(p).errors@,
        final(p).pos as int == ws_model(old(p).chars@, old(p).pos as int).0,
        final(p).builder@ == stack_extend(
            old(p).builder@,
            ws_model(old(p).chars@, old(p).pos as int).1,
        ),
        old(p).pos <= final(p).pos,
{
    let ghost st0 = p.builder@;
    let ghost s = p.chars@;
    let ghost i0 = p.pos as int;
    let j = scan_ws(&p.chars, p.pos);
    if j > p.pos {
        let text = take_text(p.text, p.pos, j);
        let ghost t = text@;
        p.builder.token(SyntaxKind::WHITESPACE, text);
        proof {
            lemma_stack_emit_extend(st0, ElemModel::Token { kind: SyntaxKind::WHITESPACE, text: t });
            assert(t == s.subrange(i0, j as int));
            assert(seq![ElemModel::Token { kind: SyntaxKind::WHITESPACE, text: t }] =~= ws_model(
                s,
                i0,
            ).1);
        }
    } else {
        proof {
            lemma_stack_extend_nil(st0);
            assert(ws_model(s, i0).1 =~= Seq::<ElemModel>::empty());
        }
    }
    p.pos = j;
}

/// Match a literal after whitespace, keeping it as one token of the given
/// kind; on failure, restore everything.
fn eat_lit(p: &mut Parser, kind: SyntaxKind, lit: &str) -> (ok: bool)
    requires
        inv(*old(p)),
        lit@.len() >= 1,
    ensures
        inv(*final(p)),
        keeps(*old(p), *final(p)),
        final(p).errors@ == old(p).errors@,
        ok ==> (leaf_lit(old(p).chars@, old(p).pos as int, kind, lit@) matches Some(r)
            && final(p).pos as int == r.0 && final(p).builder@ == stack_extend(
            old(p).builder@,
            r.1,
        )),
        !ok ==> leaf_lit(old(p).chars@, old(p).pos as int, kind, lit@) is None && final(p).pos
            == old(p).pos && final(p).builder@ == old(p).builder@,
{
    let ghost st0 = p.builder@;
    let ghost s = p.chars@;
    let ghost i0 = p.pos as int;
    let start = p.pos;
    let cp = p.builder.checkpoint();
    emit_ws(p);
    let j = p.pos;
    let n = lit.unicode_len();
    let len = p.chars.len();
    let matched = if n > len - j {
        false
    } else {
        let mut k: usize = 0;
        let mut m = true;
        while k < n
            invariant
                k <= n,
                j + n <= len,
                len == s.len(),
                n == lit@.len(),
                p.chars@ == s,
                m == (s.subrange(j as int, j + k) =~= lit@.subrange(0, k as int)),
            decreases n - k,
        {
            let c = p.chars[j + k];
            let l = lit.get_char(k);
            proof {
                assert(s.subrange(j as int, j + k + 1).drop_last() =~= s.subrange(
                    j as int,
                    j + k,
                ));
                assert(lit@.subrange(0, k + 1).drop_last() =~= lit@.subrange(0, k as int));
                assert(s.subrange(j as int, j + k + 1).last() == s[j + k]);
                assert(lit@.subrange(0, k + 1).last() == lit@[k as int]);
            }
            if c != l {
                m = false;
                proof {
                    assert(s.subrange(j as int, j + k + 1)[k as int] == s[j + k]);
                    assert(lit@.subrange(0, k + 1)[k as int] == lit@[k as int]);
                    assert(!(s.subrange(j as int, j + k + 1) =~= lit@.subrange(0, k + 1)));
                }
            } else {
                proof {
                    if m {
                        assert(s.subrange(j as int, j + k + 1) =~= lit@.subrange(0, k + 1));
                    } else {
                        assert(exists|q: int|
                            0 <= q < k && s.subrange(j as int, j + k)[q] != lit@.subrange(
                                0,
                                k as int,
                            )[q]);
                        let q = choose|q: int|
                            0 <= q < k && s.subrange(j as int, j + k)[q] != lit@.subrange(
                                0,
                                k as int,
                            )[q];
                        assert(s.subrange(j as int, j + k + 1)[q] != lit@.subrange(0, k + 1)[q]);
                    }
                }
            }
            k = k + 1;
        }
        proof {
            if m {
                assert(s.subrange(j as int, j + n) =~= lit@.subrange(0, n as int));
                assert(lit@.subrange(0, n as int) =~= lit@);
            } else {
                if s.subrange(j as int, j + n) == lit@ {
                    assert(s.subrange(j as int, j + n) =~= lit@.subrange(0, n as int));
                }
            }
        }
        m
    };
    if matched {
        let text = String::from_str(lit);
        let ghost t = text@;
        p.builder.token(kind, text);
        p.pos = j + n;
        proof {
            let w = ws_model(s, i0);
            lemma_stack_emit_extend(stack_extend(st0, w.1), ElemModel::Token { kind, text: t });
            lemma_stack_extend_extend(st0, w.1, seq![tok(kind, lit@)]);
            assert(w.1.push(tok(kind, lit@)) =~= w.1 + seq![tok(kind, lit@)]);
            assert((leaf_lit(s, i0, kind, lit@)->0).1 == w.1.push(tok(kind, lit@)));
        }
        true
    } else {
        let ghost w = ws_model(s, i0);
        proof {
            if j + lit@.len() <= s.len() {
                assert(!(s.subrange(j as int, j + lit@.len()) == lit@));
            }
            assert(leaf_lit(s, i0, kind, lit@) is None);
        }
        p.builder.revert(cp);
        p.pos = start;
        proof {
            lemma_revert_restores(st0, w.1);
        }
        false
    }
}

// ---------------------------------------------------------------------------
// Value leaves.
// ---------------------------------------------------------------------------

/// A cell leaf: letters then digits, kept as one `CELL` token.
fn cell(p: &mut Parser) -> (ok: bool)
    requires
        inv(*old(p)),
    ensures
        inv(*final(p)),
        keeps(*old(p), *final(p)),
        final(p).errors@ == old(p).errors@,
        ok ==> (leaf_cell(old(p).chars@, old(p).pos as int) matches Some(r) && final(p).pos as int
            == r.0 && final(p).builder@ == stack_extend(old(p).builder@, r.1)),
        !ok ==> leaf_cell(old(p).chars@, old(p).pos as int) is None && final(p).pos == old(p).pos
            && final(p).builder@ == old(p).builder@,
{
    let ghost st0 = p.builder@;
    let ghost s = p.chars@;
    let ghost i0 = p.pos as int;
    let start = p.pos;
    let cp = p.builder.checkpoint();
    emit_ws(p);
    let j = p.pos;
    let a = scan_alpha(&p.chars, j);
    if a > j {
        let d = scan_digit(&p.chars, a);
        if d > a {
            let text = take_text(p.text, j, d);
            let ghost t = text@;
            p.builder.token(SyntaxKind::CELL, text);
            p.pos = d;
            proof {
                let w = ws_model(s, i0);
                let m = tok(SyntaxKind::CELL, s.subrange(j as int, d as int));
                lemma_stack_emit_extend(stack_extend(st0, w.1), m);
                lemma_stack_extend_extend(st0, w.1, seq![m]);
                assert(w.1.push(m) =~= w.1 + seq![m]);
            }
            return true;
        }
    }
    p.builder.revert(cp);
    p.pos = start;
    proof {
        lemma_revert_restores(st0, ws_model(s, i0).1);
    }
    false
}

/// An integer leaf: digits, kept as one `INT` token.
fn integer(p: &mut Parser) -> (ok: bool)
    requires
        inv(*old(p)),
    ensures
        inv(*final(p)),
        keeps(*old(p), *final(p)),
        final(p).errors@ == old(p).errors@,
        ok ==> (leaf_int(old(p).chars@, old(p).pos as int) matches Some(r) && final(p).pos as int
            == r.0 && final(p).builder@ == stack_extend(old(p).builder@, r.1)),
        !ok ==> leaf_int(old(p).chars@, old(p).pos as int) is None && final(p).pos == old(p).pos
            && final(p).builder@ == old(p).builder@,
{
    let ghost st0 = p.builder@;
    let ghost s = p.chars@;
    let ghost i0 = p.pos as int;
    let start = p.pos;
    let cp = p.builder.checkpoint();
    emit_ws(p);
    let j = p.pos;
    let d = scan_digit(&p.chars, j);
    if d > j {
        let text = take_text(p.text, j, d);
        let ghost t = text@;
        p.builder.token(SyntaxKind::INT, text);
        p.pos = d;
        proof {
            let w = ws_model(s, i0);
            let m = tok(SyntaxKind::INT, s.subrange(j as int, d as int));
            lemma_stack_emit_extend(stack_extend(st0, w.1), m);
            lemma_stack_extend_extend(st0, w.1, seq![m]);
            assert(w.1.push(m) =~= w.1 + seq![m]);
        }
        return true;
    }
    p.builder.revert(cp);
    p.pos = start;
    proof {
        lemma_revert_restores(st0, ws_model(s, i0).1);
    }
    false
}

/// An identifier leaf, kept as one `IDENT` token.
fn ident(p: &mut Parser) -> (ok: bool)
    requires
        inv(*old(p)),
    ensures
        inv(*final(p)),
        keeps(*old(p), *final(p)),
        final(p).errors@ == old(p).errors@,
        ok ==> (leaf_ident(old(p).chars@, old(p).pos as int) matches Some(r) && final(p).pos as int
            == r.0 && final(p).builder@ == stack_extend(old(p).builder@, r.1)),
        !ok ==> leaf_ident(old(p).chars@, old(p).pos as int) is None && final(p).pos == old(p).pos
            && final(p).builder@ == old(p).builder@,
{
    let ghost st0 = p.builder@;
    let ghost s = p.chars@;
    let ghost i0 = p.pos as int;
    let start = p.pos;
    let cp = p.builder.checkpoint();
    emit_ws(p);
    let j = p.pos;
    if j < p.chars.len() && ident_start(p.chars[j]) {
        let e = scan_ident(&p.chars, j + 1);
        let text = take_text(p.text, j, e);
        let ghost t = text@;
        p.builder.token(SyntaxKind::IDENT, text);
        p.pos = e;
        proof {
            let w = ws_model(s, i0);
            let m = tok(SyntaxKind::IDENT, s.subrange(j as int, e as int));
            lemma_stack_emit_extend(stack_extend(st0, w.1), m);
            lemma_stack_extend_extend(st0, w.1, seq![m]);
            assert(w.1.push(m) =~= w.1 + seq![m]);
        }
        return true;
    }
    p.builder.revert(cp);
    p.pos = start;
    proof {
        lemma_revert_restores(st0, ws_model(s, i0).1);
    }
    false
}

// ---------------------------------------------------------------------------
// Composite nodes.
// ---------------------------------------------------------------------------

/// Wrap everything emitted since the checkpoint under a new node of the
/// given kind.
fn wrap_since(
    p: &mut Parser,
    cp: Checkpoint,
    kind: SyntaxKind,
    Ghost(st0): Ghost<Seq<FrameModel>>,
    Ghost(e): Ghost<Seq<ElemModel>>,
)
    requires
        inv(*old(p)),
        old(p).builder@ == stack_extend(st0, e),
        st0.len() >= 1,
        cp.depth() == st0.len(),
        cp.count() == st0.last().1.len(),
    ensures
        inv(*final(p)),
        keeps(*old(p), *final(p)),
        final(p).pos == old(p).pos,
        final(p).errors@ == old(p).errors@,
        final(p).builder@ == stack_extend(
            st0,
            seq![ElemModel::Node { kind, children: e }],
        ),
{
    p.builder.start_node_at(cp, kind);
    p.builder.finish_node();
    proof {
        lemma_wrap_extend(st0, e, kind);
    }
}

/// `cell : cell`, wrapped in a `CELL_RANGE` node.
fn cell_range(p: &mut Parser) -> (ok: bool)
    requires
        inv(*old(p)),
    ensures
        inv(*final(p)),
        keeps(*old(p), *final(p)),
        final(p).errors@ == old(p).errors@,
        ok ==> (node_cell_range(old(p).chars@, old(p).pos as int) matches Some(r) && final(p).pos as int == r.0 && final(p).builder@ == stack_extend(old(p).builder@, r.1)),
        !ok ==> node_cell_range(old(p).chars@, old(p).pos as int) is None && final(p).pos == old(p).pos && final(p).builder@ == old(p).builder@,
{
    let ghost st0 = p.builder@;
    let ghost s = p.chars@;
    let ghost i0 = p.pos as int;
    let start = p.pos;
    let cp = p.builder.checkpoint();
    proof {
        reveal_strlit(":");
        assert(":"@ =~= seq![':']);
    }
    if !cell(p) {
        return false;
    }
    let ghost e1 = (leaf_cell(s, i0)->0).1;
    if !eat_lit(p, SyntaxKind::COLON, ":") {
        p.builder.revert(cp);
        p.pos = start;
        proof {
            lemma_revert_restores(st0, e1);
        }
        return false;
    }
    let ghost e2 = (leaf_colon(s, (leaf_cell(s, i0)->0).0)->0).1;
    proof {
        lemma_stack_extend_extend(st0, e1, e2);
    }
    if !cell(p) {
        p.builder.revert(cp);
        p.pos = start;
        proof {
            lemma_revert_restores(st0, e1 + e2);
        }
        return false;
    }
    let ghost e3 = (leaf_cell(s, (leaf_colon(s, (leaf_cell(s, i0)->0).0)->0).0)->0).1;
    proof {
        lemma_stack_extend_extend(st0, e1 + e2, e3);
    }
    wrap_since(p, cp, SyntaxKind::CELL_RANGE, Ghost(st0), Ghost(e1 + e2 + e3));
    true
}

/// `$ identifier`, wrapped in an `ALIAS_EXPR` node.
fn alias_expr(p: &mut Parser) -> (ok: bool)
    requires
        inv(*old(p)),
    ensures
        inv(*final(p)),
        keeps(*old(p), *final(p)),
        final(p).errors@ == old(p).errors@,
        ok ==> (node_alias_expr(old(p).chars@, old(p).pos as int) matches Some(r) && final(p).pos as int == r.0 && final(p).builder@ == stack_extend(old(p).builder@, r.1)),
        !ok ==> node_alias_expr(old(p).chars@, old(p).pos as int) is None && final(p).pos == old(p).pos && final(p).builder@ == old(p).builder@,
{
    let ghost st0 = p.builder@;
    let ghost s = p.chars@;
    let ghost i0 = p.pos as int;
    let start = p.pos;
    let cp = p.builder.checkpoint();
    proof {
        reveal_strlit("$");
        assert("$"@ =~= seq!['$']);
    }
    if !eat_lit(p, SyntaxKind::DOLLAR, "$") {
        return false;
    }
    let ghost e1 = (leaf_dollar(s, i0)->0).1;
    if !ident(p) {
        p.builder.revert(cp);
        p.pos = start;
        proof {
            lemma_revert_restores(st0, e1);
        }
        return false;
    }
    let ghost e2 = (leaf_ident(s, (leaf_dollar(s, i0)->0).0)->0).1;
    proof {
        lemma_stack_extend_extend(st0, e1, e2);
    }
    wrap_since(p, cp, SyntaxKind::ALIAS_EXPR, Ghost(st0), Ghost(e1 + e2));
    true
}

/// A place: the first of cell range, alias reference, bare cell — wrapped in
/// a `PLACE` node.
fn place(p: &mut Parser) -> (ok: bool)
    requires
        inv(*old(p)),
    ensures
        inv(*final(p)),
        keeps(*old(p), *final(p)),
        final(p).errors@ == old(p).errors@,
        ok ==> (node_place(old(p).chars@, old(p).pos as int) matches Some(r) && final(p).pos as int
            == r.0 && final(p).builder@ == stack_extend(old(p).builder@, r.1)),
        !ok ==> node_place(old(p).chars@, old(p).pos as int) is None && final(p).pos == old(p).pos
            && final(p).builder@ == old(p).builder@,
{
    let ghost st0 = p.builder@;
    let ghost s = p.chars@;
    let ghost i0 = p.pos as int;
    let cp = p.builder.checkpoint();
    let ok = if cell_range(p) {
        true
    } else if alias_expr(p) {
        true
    } else {
        cell(p)
    };
    if !ok {
        return false;
    }
    let ghost inner = if node_cell_range(s, i0) is Some {
        (node_cell_range(s, i0)->0).1
    } else if node_alias_expr(s, i0) is Some {
        (node_alias_expr(s, i0)->0).1
    } else {
        (leaf_cell(s, i0)->0).1
    };
    wrap_since(p, cp, SyntaxKind::PLACE, Ghost(st0), Ghost(inner));
    true
}

/// `enum place`, wrapped in an `ENUM_EXPR` node.
fn enum_expr(p: &mut Parser) -> (ok: bool)
    requires
        inv(*old(p)),
    ensures
        inv(*final(p)),
        keeps(*old(p), *final(p)),
        final(p).errors@ == old(p).errors@,
        ok ==> (node_enum_expr(old(p).chars@, old(p).pos as int) matches Some(r) && final(p).pos as int == r.0 && final(p).builder@ == stack_extend(old(p).builder@, r.1)),
        !ok ==> node_enum_expr(old(p).chars@, old(p).pos as int) is None && final(p).pos == old(p).pos && final(p).builder@ == old(p).builder@,
{
    let ghost st0 = p.builder@;
    let ghost s = p.chars@;
    let ghost i0 = p.pos as int;
    let start = p.pos;
    let cp = p.builder.checkpoint();
    proof {
        reveal_strlit("enum");
        assert("enum"@ =~= seq!['e', 'n', 'u', 'm']);
    }
    if !eat_lit(p, SyntaxKind::ENUM_TOK, "enum") {
        return false;
    }
    let ghost e1 = (leaf_enum_tok(s, i0)->0).1;
    if !place(p) {
        p.builder.revert(cp);
        p.pos = start;
        proof {
            lemma_revert_restores(st0, e1);
        }
        return false;
    }
    let ghost e2 = (node_place(s, (leaf_enum_tok(s, i0)->0).0)->0).1;
    proof {
        lemma_stack_extend_extend(st0, e1, e2);
    }
    wrap_since(p, cp, SyntaxKind::ENUM_EXPR, Ghost(st0), Ghost(e1 + e2));
    true
}

/// An expression: the first of enum tag, integer, place — wrapped in an
/// `EXPR` node.
fn expr(p: &mut Parser) -> (ok: bool)
    requires
        inv(*old(p)),
    ensures
        inv(*final(p)),
        keeps(*old(p), *final(p)),
        final(p).errors@ == old(p).errors@,
        ok ==> (node_expr(old(p).chars@, old(p).pos as int) matches Some(r) && final(p).pos as int
            == r.0 && final(p).builder@ == stack_extend(old(p).builder@, r.1)),
        !ok ==> node_expr(old(p).chars@, old(p).pos as int) is None && final(p).pos == old(p).pos
            && final(p).builder@ == old(p).builder@,
{
    let ghost st0 = p.builder@;
    let ghost s = p.chars@;
    let ghost i0 = p.pos as int;
    let cp = p.builder.checkpoint();
    let ok = if enum_expr(p) {
        true
    } else if integer(p) {
        true
    } else {
        place(p)
    };
    if !ok {
        return false;
    }
    let ghost inner = if node_enum_expr(s, i0) is Some {
        (node_enum_expr(s, i0)->0).1
    } else if leaf_int(s, i0) is Some {
        (leaf_int(s, i0)->0).1
    } else {
        (node_place(s, i0)->0).1
    };
    wrap_since(p, cp, SyntaxKind::EXPR, Ghost(st0), Ghost(inner));
    true
}

/// `place = expression`, wrapped in an `ASSIGN` node.
fn assign(p: &mut Parser) -> (ok: bool)
    requires
        inv(*old(p)),
    ensures
        inv(*final(p)),
        keeps(*old(p), *final(p)),
        final(p).errors@ == old(p).errors@,
        ok ==> (node_assign(old(p).chars@, old(p).pos as int) matches Some(r) && final(p).pos as int == r.0 && final(p).builder@ == stack_extend(old(p).builder@, r.1)),
        !ok ==> node_assign(old(p).chars@, old(p).pos as int) is None && final(p).pos == old(p).pos
            && final(p).builder@ == old(p).builder@,
{
    let ghost st0 = p.builder@;
    let ghost s = p.chars@;
    let ghost i0 = p.pos as int;
    let start = p.pos;
    let cp = p.builder.checkpoint();
    proof {
        reveal_strlit("=");
        assert("="@ =~= seq!['=']);
    }
    if !place(p) {
        return false;
    }
    let ghost e1 = (node_place(s, i0)->0).1;
    if !eat_lit(p, SyntaxKind::EQ, "=") {
        p.builder.revert(cp);
        p.pos = start;
        proof {
            lemma_revert_restores(st0, e1);
        }
        return false;
    }
    let ghost e2 = (leaf_eq(s, (node_place(s, i0)->0).0)->0).1;
    proof {
        lemma_stack_extend_extend(st0, e1, e2);
    }
    if !expr(p) {
        p.builder.revert(cp);
        p.pos = start;
        proof {
            lemma_revert_restores(st0, e1 + e2);
        }
        return false;
    }
    let ghost e3 = (node_expr(s, (leaf_eq(s, (node_place(s, i0)->0).0)->0).0)->0).1;
    proof {
        lemma_stack_extend_extend(st0, e1 + e2, e3);
    }
    wrap_since(p, cp, SyntaxKind::ASSIGN, Ghost(st0), Ghost(e1 + e2 + e3));
    true
}

/// `alias identifier = place`, wrapped in an `ALIAS_STMT` node.
fn alias_stmt(p: &mut Parser) -> (ok: bool)
    requires
        inv(*old(p)),
    ensures
        inv(*final(p)),
        keeps(*old(p), *final(p)),
        final(p).errors@ == old(p).errors@,
        ok ==> (node_alias_stmt(old(p).chars@, old(p).pos as int) matches Some(r) && final(p).pos as int == r.0 && final(p).builder@ == stack_extend(old(p).builder@, r.1)),
        !ok ==> node_alias_stmt(old(p).chars@, old(p).pos as int) is None && final(p).pos == old(p).pos && final(p).builder@ == old(p).builder@,
{
    let ghost st0 = p.builder@;
    let ghost s = p.chars@;
    let ghost i0 = p.pos as int;
    let start = p.pos;
    let cp = p.builder.checkpoint();
    proof {
        reveal_strlit("alias");
        assert("alias"@ =~= seq!['a', 'l', 'i', 'a', 's']);
        reveal_strlit("=");
        assert("="@ =~= seq!['=']);
    }
    if !eat_lit(p, SyntaxKind::ALIAS_TOK, "alias") {
        return false;
    }
    let ghost i1 = (leaf_alias_tok(s, i0)->0).0;
    let ghost e1 = (leaf_alias_tok(s, i0)->0).1;
    if !ident(p) {
        p.builder.revert(cp);
        p.pos = start;
        proof {
            lemma_revert_restores(st0, e1);
        }
        return false;
    }
    let ghost i2 = (leaf_ident(s, i1)->0).0;
    let ghost e2 = (leaf_ident(s, i1)->0).1;
    proof {
        lemma_stack_extend_extend(st0, e1, e2);
    }
    if !eat_lit(p, SyntaxKind::EQ, "=") {
        p.builder.revert(cp);
        p.pos = start;
        proof {
            lemma_revert_restores(st0, e1 + e2);
        }
        return false;
    }
    let ghost i3 = (leaf_eq(s, i2)->0).0;
    let ghost e3 = (leaf_eq(s, i2)->0).1;
    proof {
        lemma_stack_extend_extend(st0, e1 + e2, e3);
    }
    if !place(p) {
        p.builder.revert(cp);
        p.pos = start;
        proof {
            lemma_revert_restores(st0, e1 + e2 + e3);
        }
        return false;
    }
    let ghost e4 = (node_place(s, i3)->0).1;
    proof {
        lemma_stack_extend_extend(st0, e1 + e2 + e3, e4);
    }
    wrap_since(p, cp, SyntaxKind::ALIAS_STMT, Ghost(st0), Ghost(e1 + e2 + e3 + e4));
    true
}

/// A full statement line: alias declaration or assignment, then the newline,
/// wrapped in a `STATEMENT` node.
fn statement(p: &mut Parser) -> (ok: bool)
    requires
        inv(*old(p)),
    ensures
        inv(*final(p)),
        keeps(*old(p), *final(p)),
        final(p).errors@ == old(p).errors@,
        ok ==> (node_statement(old(p).chars@, old(p).pos as int) matches Some(r) && final(p).pos as int == r.0 && final(p).builder@ == stack_extend(old(p).builder@, r.1)),
        !ok ==> node_statement(old(p).chars@, old(p).pos as int) is None && final(p).pos == old(p).pos && final(p).builder@ == old(p).builder@,
{
    let ghost st0 = p.builder@;
    let ghost s = p.chars@;
    let ghost i0 = p.pos as int;
    let start = p.pos;
    let cp = p.builder.checkpoint();
    proof {
        reveal_strlit("\n");
        assert("\n"@ =~= seq!['\n']);
    }
    let ok_inner = if alias_stmt(p) {
        true
    } else {
        assign(p)
    };
    if !ok_inner {
        return false;
    }
    let ghost inner = if node_alias_stmt(s, i0) is Some {
        (node_alias_stmt(s, i0)->0).1
    } else {
        (node_assign(s, i0)->0).1
    };
    if !eat_lit(p, SyntaxKind::NEWLINE, "\n") {
        p.builder.revert(cp);
        p.pos = start;
        proof {
            lemma_revert_restores(st0, inner);
        }
        return false;
    }
    let ghost i1 = if node_alias_stmt(s, i0) is Some {
        (node_alias_stmt(s, i0)->0).0
    } else {
        (node_assign(s, i0)->0).0
    };
    let ghost e2 = (leaf_nl(s, i1)->0).1;
    proof {
        lemma_stack_extend_extend(st0, inner, e2);
    }
    wrap_since(p, cp, SyntaxKind::STATEMENT, Ghost(st0), Ghost(inner + e2));
    true
}

// ---------------------------------------------------------------------------
// Error recovery and the top level.
// ---------------------------------------------------------------------------

/// Recover from a line no grammar alternative accepts: keep the leading
/// whitespace, keep the longest assignment prefix as a partial `ASSIGN`
/// under a `STATEMENT`, record one error, and skip the rest of the line as
/// an `ERROR` token.
fn recover_line(p: &mut Parser)
    requires
        inv(*old(p)),
        old(p).pos < old(p).chars@.len(),
        line_model(old(p).chars@, old(p).pos as int) is None,
    ensures
        inv(*final(p)),
        keeps(*old(p), *final(p)),
        final(p).pos as int == recovery(old(p).chars@, old(p).pos as int).0,
        final(p).builder@ == stack_extend(
            old(p).builder@,
            recovery(old(p).chars@, old(p).pos as int).1,
        ),
        errors_model(final(p).errors@) == errors_model(old(p).errors@).push(
            recovery(old(p).chars@, old(p).pos as int).2,
        ),
{
    let ghost st0 = p.builder@;
    let ghost s = p.chars@;
    let ghost i0 = p.pos as int;
    let ghost w = ws_model(s, i0);
    proof {
        reveal_strlit("=");
        assert("="@ =~= seq!['=']);
    }
    emit_ws(p);
    let jw = p.pos;
    let ghost jw_i = jw as int;
    if jw == p.chars.len() {
        let ghost errs0 = p.errors@;
        let e = ParseError { start: jw, end: jw, found: Option::None };
        p.errors.push(e);
        proof {
            lemma_errors_model_push(errs0, e);
            assert(err_of(e) == err_model(s, jw_i));
        }
        return ;
    }
    let cp = p.builder.checkpoint();
    let ghost st1 = p.builder@;
    let ghost pa = partial_assign(s, jw_i);
    if place(p) {
        let ghost r1 = node_place(s, jw_i)->0;
        if eat_lit(p, SyntaxKind::EQ, "=") {
            let ghost r2 = leaf_eq(s, r1.0)->0;
            proof {
                lemma_stack_extend_extend(st1, r1.1, r2.1);
            }
            if expr(p) {
                let ghost r3 = node_expr(s, r2.0)->0;
                proof {
                    lemma_stack_extend_extend(st1, r1.1 + r2.1, r3.1);
                }
            }
        }
    } else {
        proof {
            lemma_stack_extend_nil(st1);
        }
    }
    proof {
        assert(p.pos as int == pa.0);
        assert(p.builder@ == stack_extend(st1, pa.1));
        crate::grammar::lemma_partial_assign_bounds(s, jw_i);
        if node_place(s, jw_i) is Some {
            crate::grammar::lemma_node_place_bounds(s, jw_i);
            let r1 = node_place(s, jw_i)->0;
            if leaf_eq(s, r1.0) is Some {
                crate::grammar::lemma_leaf_lit_bounds(s, r1.0, SyntaxKind::EQ, seq!['=']);
                let r2 = leaf_eq(s, r1.0)->0;
                if node_expr(s, r2.0) is Some {
                    crate::grammar::lemma_node_expr_bounds(s, r2.0);
                }
            }
            assert(pa.0 > jw_i);
        }
    }
    let ghost wrapped_tail: Seq<ElemModel> = if pa.0 > jw_i {
        seq![
            ElemModel::Node {
                kind: SyntaxKind::STATEMENT,
                children: seq![ElemModel::Node { kind: SyntaxKind::ASSIGN, children: pa.1 }],
            },
        ]
    } else {
        Seq::empty()
    };
    let ghost assign_only: Seq<ElemModel> = seq![
        ElemModel::Node { kind: SyntaxKind::ASSIGN, children: pa.1 },
    ];
    if p.pos > jw {
        wrap_since(p, cp, SyntaxKind::ASSIGN, Ghost(st1), Ghost(pa.1));
        wrap_since(p, cp, SyntaxKind::STATEMENT, Ghost(st1), Ghost(assign_only));
    } else {
        proof {
            lemma_stack_extend_nil(st1);
        }
    }
    proof {
        assert(p.builder@ == stack_extend(st1, wrapped_tail));
    }
    let ghost errs0 = p.errors@;
    let ep = scan_ws(&p.chars, p.pos);
    let e = if ep < p.chars.len() {
        ParseError { start: ep, end: ep + 1, found: Option::Some(p.chars[ep]) }
    } else {
        ParseError { start: ep, end: ep, found: Option::None }
    };
    p.errors.push(e);
    proof {
        lemma_errors_model_push(errs0, e);
        assert(err_of(e) == err_model(s, ws_end(s, pa.0)));
    }
    let ghost st2 = p.builder@;
    let ghost junk: Seq<ElemModel> = if line_end(s, pa.0) > pa.0 {
        seq![tok(SyntaxKind::ERROR, s.subrange(pa.0, line_end(s, pa.0)))]
    } else {
        Seq::empty()
    };
    let eol = scan_line(&p.chars, p.pos);
    if eol > p.pos {
        let text = take_text(p.text, p.pos, eol);
        let ghost t = text@;
        p.builder.token(SyntaxKind::ERROR, text);
        p.pos = eol;
        proof {
            lemma_stack_emit_extend(st2, ElemModel::Token { kind: SyntaxKind::ERROR, text: t });
            assert(seq![ElemModel::Token { kind: SyntaxKind::ERROR, text: t }] =~= junk);
        }
    } else {
        proof {
            lemma_stack_extend_nil(st2);
        }
    }
    proof {
        assert(p.builder@ == stack_extend(st2, junk));
        lemma_stack_extend_extend(st1, wrapped_tail, junk);
        lemma_stack_extend_extend(st0, w.1, wrapped_tail + junk);
        let r = recovery(s, i0);
        assert(r.1 =~= w.1 + (wrapped_tail + junk));
        assert(p.builder@ == stack_extend(st0, r.1));
        assert(p.pos as int == r.0);
    }
}

/// Parse one line: the grammar line if it matches, recovery otherwise.
fn parse_line(p: &mut Parser)
    requires
        inv(*old(p)),
        old(p).pos < old(p).chars@.len(),
    ensures
        inv(*final(p)),
        keeps(*old(p), *final(p)),
        final(p).pos as int == line_step(old(p).chars@, old(p).pos as int).0,
        final(p).builder@ == stack_extend(
            old(p).builder@,
            line_step(old(p).chars@, old(p).pos as int).1,
        ),
        errors_model(final(p).errors@) == errors_model(old(p).errors@) + line_step(
            old(p).chars@,
            old(p).pos as int,
        ).2,
{
    let ghost s = p.chars@;
    let ghost i0 = p.pos as int;
    let ghost errs0 = p.errors@;
    proof {
        reveal_strlit("\n");
        assert("\n"@ =~= seq!['\n']);
    }
    if eat_lit(p, SyntaxKind::NEWLINE, "\n") {
        proof {
            assert(errors_model(errs0) + Seq::<ErrModel>::empty() =~= errors_model(errs0));
        }
        return ;
    }
    if statement(p) {
        proof {
            assert(errors_model(errs0) + Seq::<ErrModel>::empty() =~= errors_model(errs0));
        }
        return ;
    }
    recover_line(p);
    proof {
        let r = recovery(s, i0);
        assert(errors_model(errs0).push(r.2) =~= errors_model(errs0) + seq![r.2]);
    }
}

/// The result of a parse: the root green node, and every error recorded on
/// the way. A result is always produced, whatever the input.
#[derive(Debug)]
pub struct Parse {
    pub root: GreenNode,
    pub errors: Vec<ParseError>,
}

impl Parse {
    /// Derive a red cursor for the parsed green tree, errors or not.
    ///
    /// Unlike the green tree, the cursor carries parent back-references and
    /// absolute offsets. It is meant for temporary traversals, not for
    /// persistent storage, and deriving it again yields the same view.
    pub fn red_tree<'s>(&'s self) -> (n: crate::red::SyntaxNode<'s>)
        requires
            crate::green::model_text(self.root@).len() <= usize::MAX,
        ensures
            n.wf(),
            n.model() == self.root@,
            n.start() == 0,
            n.parent_model() is None,
    {
        crate::red::SyntaxNode::new_root(&self.root)
    }
}

/// Recovery well-formedness: whether or not errors were recorded, the root of
/// a parse is a structurally valid tree. Children are held by value, so every
/// non-root node has exactly one parent, and every kind stored in the tree is
/// a registry member within the validity boundary.
pub proof fn lemma_recovery_well_formed(result: Parse)
    ensures
        crate::green::model_kinds_valid(result.root@),
{
    crate::green::lemma_node_kinds_valid(result.root);
}

/// Parse a source text into a lossless green tree plus a list of recoverable
/// errors.
///
/// This is a total function: every input, valid or not, yields a tree whose
/// root is a `ROOT` node, whose token texts concatenate to the input
/// exactly, and whose error list is empty exactly when the input matches the
/// grammar.
pub fn parse(text: &str) -> (result: Parse)
    ensures
        result.root@ == (ElemModel::Node {
            kind: SyntaxKind::ROOT,
            children: program_model(text@, 0).0,
        }),
        errors_model(result.errors@) == program_model(text@, 0).1,
        crate::green::node_text(result.root) == text@,
        result.errors@.len() == 0 <==> program_ok(text@, 0),
{
    let chars = chars_of(text);
    let mut p = Parser {
        text,
        chars,
        pos: 0,
        builder: TreeBuilder::new(),
        errors: Vec::new(),
    };
    p.builder.start_node(SyntaxKind::ROOT);
    proof {
        assert(p.builder@ =~= seq![(SyntaxKind::ROOT, Seq::<ElemModel>::empty())]);
        assert(Seq::<ElemModel>::empty() + program_model(text@, 0).0 =~= program_model(
            text@,
            0,
        ).0);
        assert(errors_model(p.errors@) =~= Seq::<ErrModel>::empty());
        assert(Seq::<ErrModel>::empty() + program_model(text@, 0).1 =~= program_model(
            text@,
            0,
        ).1);
    }
    while p.pos < p.chars.len()
        invariant
            inv(p),
            p.text == text,
            p.chars@ == text@,
            p.builder@.len() == 1,
            p.builder@[0].0 == SyntaxKind::ROOT,
            program_model(text@, 0).0 == p.builder@[0].1 + program_model(
                text@,
                p.pos as int,
            ).0,
            program_model(text@, 0).1 == errors_model(p.errors@) + program_model(
                text@,
                p.pos as int,
            ).1,
        decreases p.chars@.len() - p.pos,
    {
        let ghost pos0 = p.pos as int;
        let ghost st_pre = p.builder@;
        let ghost errs_pre = p.errors@;
        parse_line(&mut p);
        proof {
            lemma_line_step_progress(text@, pos0);
            let st = line_step(text@, pos0);
            let rest = program_model(text@, st.0);
            assert(program_model(text@, pos0).0 == st.1 + rest.0);
            assert(program_model(text@, pos0).1 == st.2 + rest.1);
            assert(p.builder@[0].1 == st_pre[0].1 + st.1);
            assert(st_pre[0].1 + (st.1 + rest.0) =~= (st_pre[0].1 + st.1) + rest.0);
            assert(errors_model(errs_pre) + (st.2 + rest.1) =~= (errors_model(errs_pre) + st.2)
                + rest.1);
        }
    }
    proof {
        assert(program_model(text@, p.pos as int).0 =~= Seq::<ElemModel>::empty());
        assert(program_model(text@, p.pos as int).1 =~= Seq::<ErrModel>::empty());
        assert(p.builder@[0].1 + Seq::<ElemModel>::empty() =~= p.builder@[0].1);
        assert(errors_model(p.errors@) + Seq::<ErrModel>::empty() =~= errors_model(p.errors@));
        assert(program_model(text@, 0).0 == p.builder@[0].1);
        assert(program_model(text@, 0).1 == errors_model(p.errors@));
    }
    let pr = p;
    let root = pr.builder.finish();
    let errors = pr.errors;
    proof {
        crate::grammar::lemma_program_text(text@, 0);
        crate::grammar::lemma_program_ok_iff(text@, 0);
        assert(text@.subrange(0, text@.len() as int) =~= text@);
        assert(errors_model(errors@).len() == errors@.len());
    }
    Parse { root, errors }
}

} // verus!
