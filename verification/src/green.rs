//! The green tree: an immutable syntax tree that stores only kinds and raw
//! source text, with no absolute positions and no parent links.
//!
//! The tree is lossless: whitespace and newlines are first-class tokens, so
//! concatenating every token's text in document order reproduces the parsed
//! source exactly. `ElemModel` is the mathematical form of a tree and
//! `model_text` the mathematical form of that traversal; both anchor the
//! parser's contracts.

use vstd::prelude::*;

use crate::kinds::{kind_raw, SyntaxKind, ROOT_RAW};

verus! {

/// The mathematical model of a tree element: a token is a kind with the exact
/// text it covers, a node is a kind with the models of its ordered children.
pub enum ElemModel {
    Token { kind: SyntaxKind, text: Seq<char> },
    Node { kind: SyntaxKind, children: Seq<ElemModel> },
}

/// The source text covered by one modelled element.
pub open spec fn model_text(m: ElemModel) -> Seq<char>
    decreases m,
{
    match m {
        ElemModel::Token { kind, text } => text,
        ElemModel::Node { kind, children } => models_text(children),
    }
}

/// The source text covered by a run of modelled siblings, in order.
pub open spec fn models_text(s: Seq<ElemModel>) -> Seq<char>
    decreases s,
{
    if s.len() == 0 {
        Seq::empty()
    } else {
        model_text(s[0]) + models_text(s.drop_first())
    }
}

/// Appending one sibling appends its text.
pub proof fn lemma_models_text_push(s: Seq<ElemModel>, m: ElemModel)
    ensures
        models_text(s.push(m)) == models_text(s) + model_text(m),
    decreases s.len(),
{
    if s.len() == 0 {
        let p = s.push(m);
        assert(p[0] == m);
        assert(p.drop_first() =~= Seq::<ElemModel>::empty());
        assert(models_text(p) == model_text(m) + models_text(p.drop_first()));
        assert(model_text(m) + Seq::<char>::empty() =~= model_text(m));
        assert(Seq::<char>::empty() + model_text(m) =~= model_text(m));
        assert(models_text(s.push(m)) =~= models_text(s) + model_text(m));
    } else {
        lemma_models_text_push(s.drop_first(), m);
        assert(s.push(m).drop_first() =~= s.drop_first().push(m));
        assert(models_text(s.push(m)) =~= models_text(s) + model_text(m));
    }
}

/// Concatenating two sibling runs concatenates their texts.
pub proof fn lemma_models_text_add(a: Seq<ElemModel>, b: Seq<ElemModel>)
    ensures
        models_text(a + b) == models_text(a) + models_text(b),
    decreases a.len(),
{
    if a.len() == 0 {
        assert(a + b =~= b);
        assert(models_text(a + b) =~= models_text(a) + models_text(b));
    } else {
        lemma_models_text_add(a.drop_first(), b);
        assert((a + b).drop_first() =~= a.drop_first() + b);
        assert(models_text(a + b) =~= models_text(a) + models_text(b));
    }
}

/// Splitting a sibling run at any point splits its text at the same point.
pub proof fn lemma_models_text_split(s: Seq<ElemModel>, i: int)
    requires
        0 <= i <= s.len(),
    ensures
        models_text(s) == models_text(s.take(i)) + models_text(s.skip(i)),
{
    lemma_models_text_add(s.take(i), s.skip(i));
    assert(s.take(i) + s.skip(i) =~= s);
}

/// One more sibling extends the prefix text by exactly that sibling's text.
pub proof fn lemma_models_text_take_step(s: Seq<ElemModel>, i: int)
    requires
        0 <= i < s.len(),
    ensures
        models_text(s.take(i + 1)) == models_text(s.take(i)) + model_text(s[i]),
{
    assert(s.take(i + 1) =~= s.take(i).push(s[i]));
    lemma_models_text_push(s.take(i), s[i]);
}

/// A prefix's text is never longer than the whole text, even with the next
/// sibling's own text added.
pub proof fn lemma_models_text_member_bound(s: Seq<ElemModel>, i: int)
    requires
        0 <= i < s.len(),
    ensures
        models_text(s.take(i)).len() + model_text(s[i]).len() <= models_text(s).len(),
{
    lemma_models_text_split(s, i + 1);
    lemma_models_text_take_step(s, i);
}

/// A prefix's text is never longer than the whole text.
pub proof fn lemma_models_text_prefix_bound(s: Seq<ElemModel>, i: int)
    requires
        0 <= i <= s.len(),
    ensures
        models_text(s.take(i)).len() <= models_text(s).len(),
{
    lemma_models_text_split(s, i);
}

/// Every kind reachable in a modelled element is within the registry's
/// validity boundary.
pub open spec fn model_kinds_valid(m: ElemModel) -> bool
    decreases m,
{
    match m {
        ElemModel::Token { kind, text } => kind_raw(kind) <= ROOT_RAW,
        ElemModel::Node { kind, children } => kind_raw(kind) <= ROOT_RAW && models_kinds_valid(
            children,
        ),
    }
}

/// Every kind reachable in a run of modelled siblings is valid.
pub open spec fn models_kinds_valid(s: Seq<ElemModel>) -> bool
    decreases s,
{
    if s.len() == 0 {
        true
    } else {
        model_kinds_valid(s[0]) && models_kinds_valid(s.drop_first())
    }
}

// ---------------------------------------------------------------------------
// The executable green tree.
// ---------------------------------------------------------------------------

/// A leaf of the green tree: a kind plus the exact source text it covers,
/// trivia included.
#[derive(Debug, PartialEq, Eq)]
pub struct GreenToken {
    pub kind: SyntaxKind,
    pub text: String,
}

/// A child of a green node: either a nested composite node or a leaf token.
#[derive(Debug, PartialEq, Eq)]
pub enum GreenElement {
    Node(GreenNode),
    Token(GreenToken),
}

/// An immutable composite node: a kind plus its ordered children.
#[derive(Debug, PartialEq, Eq)]
pub struct GreenNode {
    pub kind: SyntaxKind,
    pub children: Vec<GreenElement>,
}

/// The model of one stored element.
pub open spec fn elem_model(e: GreenElement) -> ElemModel
    decreases e,
{
    match e {
        GreenElement::Token(t) => ElemModel::Token { kind: t.kind, text: t.text@ },
        GreenElement::Node(n) => ElemModel::Node {
            kind: n.kind,
            children: elems_model(n.children@),
        },
    }
}

/// The models of a run of stored siblings, in order.
pub open spec fn elems_model(s: Seq<GreenElement>) -> Seq<ElemModel>
    decreases s,
{
    if s.len() == 0 {
        Seq::empty()
    } else {
        seq![elem_model(s[0])] + elems_model(s.drop_first())
    }
}

impl View for GreenToken {
    type V = ElemModel;

    open spec fn view(&self) -> ElemModel {
        ElemModel::Token { kind: self.kind, text: self.text@ }
    }
}

impl View for GreenElement {
    type V = ElemModel;

    open spec fn view(&self) -> ElemModel {
        elem_model(*self)
    }
}

impl View for GreenNode {
    type V = ElemModel;

    open spec fn view(&self) -> ElemModel {
        ElemModel::Node { kind: self.kind, children: elems_model(self.children@) }
    }
}

/// The source text covered by a node: the concatenation of all its tokens'
/// texts in document order.
pub open spec fn node_text(n: GreenNode) -> Seq<char> {
    model_text(n@)
}

/// `elems_model` maps the sequence element by element.
pub proof fn lemma_elems_model_index(s: Seq<GreenElement>)
    ensures
        elems_model(s).len() == s.len(),
        forall|i: int| 0 <= i < s.len() ==> #[trigger] elems_model(s)[i] == elem_model(s[i]),
    decreases s.len(),
{
    if s.len() > 0 {
        lemma_elems_model_index(s.drop_first());
    }
}

/// Appending a stored sibling appends its model.
pub proof fn lemma_elems_model_push(s: Seq<GreenElement>, e: GreenElement)
    ensures
        elems_model(s.push(e)) == elems_model(s).push(elem_model(e)),
{
    lemma_elems_model_index(s.push(e));
    lemma_elems_model_index(s);
    assert(elems_model(s.push(e)) =~= elems_model(s).push(elem_model(e)));
}

/// Truncating or splitting stored siblings truncates or splits their models.
pub proof fn lemma_elems_model_subrange(s: Seq<GreenElement>, i: int, j: int)
    requires
        0 <= i <= j <= s.len(),
    ensures
        elems_model(s.subrange(i, j)) == elems_model(s).subrange(i, j),
{
    lemma_elems_model_index(s.subrange(i, j));
    lemma_elems_model_index(s);
    assert(elems_model(s.subrange(i, j)) =~= elems_model(s).subrange(i, j));
}

/// Every kind reachable in an element stored in a green tree is valid: the
/// element stores registry members only.
pub proof fn lemma_elem_kinds_valid(e: GreenElement)
    ensures
        model_kinds_valid(elem_model(e)),
    decreases e,
{
    match e {
        GreenElement::Token(t) => {
            crate::kinds::lemma_kind_raw_injective(t.kind, t.kind);
        },
        GreenElement::Node(n) => {
            crate::kinds::lemma_kind_raw_injective(n.kind, n.kind);
            lemma_elems_kinds_valid(n.children@);
        },
    }
}

/// Every kind in any stored sibling run is valid.
pub proof fn lemma_elems_kinds_valid(s: Seq<GreenElement>)
    ensures
        models_kinds_valid(elems_model(s)),
    decreases s,
{
    if s.len() > 0 {
        lemma_elem_kinds_valid(s[0]);
        lemma_elems_kinds_valid(s.drop_first());
        assert(elems_model(s)[0] == elem_model(s[0]));
        assert(elems_model(s).drop_first() =~= elems_model(s.drop_first()));
    }
}

/// Every green node is a structurally valid tree, whatever input produced it:
/// children are held by value, so each non-root node has exactly one parent,
/// and no kind in the tree exceeds the registry's validity boundary.
pub proof fn lemma_node_kinds_valid(n: GreenNode)
    ensures
        model_kinds_valid(n@),
{
    crate::kinds::lemma_kind_raw_injective(n.kind, n.kind);
    lemma_elems_kinds_valid(n.children@);
}

} // verus!
