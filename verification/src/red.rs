//! The red tree: ephemeral, navigable cursors over a green tree, with parent
//! back-references and absolute offsets.
//!
//! A cursor is non-owning: it borrows the green tree and is derived on
//! demand, never stored as the canonical form. Deriving cursors is pure: a
//! cursor's children are a function of its green node and its offset alone,
//! so repeated derivation from the same green tree always agrees.

use vstd::prelude::*;
use vstd::string::StrSliceExecFns;

use crate::green::{
    elem_model, elems_model, lemma_elems_model_index, lemma_models_text_member_bound,
    lemma_models_text_prefix_bound, lemma_models_text_take_step, model_text, models_text,
    ElemModel, GreenElement, GreenNode, GreenToken,
};
use crate::kinds::SyntaxKind;

verus! {

/// A red cursor over a composite node: the green node it wraps, its absolute
/// offset in the source, and its parent cursor — none for the root.
pub struct SyntaxNode<'a> {
    green: &'a GreenNode,
    offset: usize,
    parent: Option<Box<SyntaxNode<'a>>>,
}

/// A red cursor over a leaf token.
pub struct SyntaxToken<'a> {
    green: &'a GreenToken,
    offset: usize,
    parent: Option<Box<SyntaxNode<'a>>>,
}

/// A child of a red node: a node cursor or a token cursor.
pub enum SyntaxElement<'a> {
    Node(SyntaxNode<'a>),
    Token(SyntaxToken<'a>),
}

impl<'a> SyntaxNode<'a> {
    /// The model of the wrapped green node.
    pub closed spec fn model(&self) -> ElemModel {
        self.green@
    }

    /// The cursor's absolute offset.
    pub closed spec fn start(&self) -> int {
        self.offset as int
    }

    /// The model and offset of the parent cursor, if any.
    pub closed spec fn parent_model(&self) -> Option<(ElemModel, int)> {
        match self.parent {
            Option::None => Option::None,
            Option::Some(b) => Option::Some((b.model(), b.start())),
        }
    }

    /// A cursor is well formed when the text it covers ends within
    /// addressable range.
    pub closed spec fn wf(&self) -> bool {
        self.start() + model_text(self.model()).len() <= usize::MAX
    }
}

impl<'a> SyntaxToken<'a> {
    /// The model of the wrapped green token.
    pub closed spec fn model(&self) -> ElemModel {
        self.green@
    }

    /// The cursor's absolute offset.
    pub closed spec fn start(&self) -> int {
        self.offset as int
    }

    /// The model and offset of the parent cursor, if any.
    pub closed spec fn parent_model(&self) -> Option<(ElemModel, int)> {
        match self.parent {
            Option::None => Option::None,
            Option::Some(b) => Option::Some((b.model(), b.start())),
        }
    }
}

impl<'a> SyntaxElement<'a> {
    /// The model of the wrapped green element.
    pub open spec fn model(&self) -> ElemModel {
        match self {
            SyntaxElement::Node(n) => n.model(),
            SyntaxElement::Token(t) => t.model(),
        }
    }

    /// The element's absolute offset.
    pub open spec fn start(&self) -> int {
        match self {
            SyntaxElement::Node(n) => n.start(),
            SyntaxElement::Token(t) => t.start(),
        }
    }

    /// The model and offset of the parent cursor, if any.
    pub open spec fn parent_model(&self) -> Option<(ElemModel, int)> {
        match self {
            SyntaxElement::Node(n) => n.parent_model(),
            SyntaxElement::Token(t) => t.parent_model(),
        }
    }
}

/// The children a cursor over `m` at offset `base` derives: each child's
/// model with its absolute offset, the running sum of the texts before it.
pub open spec fn red_children_model(m: ElemModel, base: int) -> Seq<(ElemModel, int)> {
    Seq::new(
        m->Node_children.len(),
        |i: int| (m->Node_children[i], base + models_text(m->Node_children.take(i)).len()),
    )
}

/// Idempotent re-derivation: a cursor's children are a function of its green
/// node and its offset alone, so deriving a red cursor twice from the same
/// green tree yields identical offsets and identical children sequences on
/// every derivation.
pub proof fn lemma_red_rederivation(a: SyntaxNode, b: SyntaxNode)
    requires
        a.model() == b.model(),
        a.start() == b.start(),
    ensures
        red_children_model(a.model(), a.start()) == red_children_model(b.model(), b.start()),
{
}

/// The length of the text an element covers, computed from the green tree.
fn elem_text_len(e: &GreenElement) -> (n: usize)
    requires
        model_text(elem_model(*e)).len() <= usize::MAX,
    ensures
        n as int == model_text(elem_model(*e)).len(),
    decreases *e,
{
    match e {
        GreenElement::Token(t) => t.text.as_str().unicode_len(),
        GreenElement::Node(g) => {
            let ghost cm = elems_model(g.children@);
            proof {
                lemma_elems_model_index(g.children@);
            }
            let k = g.children.len();
            let mut total: usize = 0;
            let mut i: usize = 0;
            proof {
                assert(cm.take(0) =~= Seq::<ElemModel>::empty());
            }
            while i < k
                invariant
                    i <= k,
                    k == g.children@.len(),
                    cm == elems_model(g.children@),
                    cm.len() == k,
                    *e == GreenElement::Node(*g),
                    forall|q: int|
                        0 <= q < k ==> #[trigger] cm[q] == elem_model(g.children@[q]),
                    models_text(cm).len() <= usize::MAX,
                    total as int == models_text(cm.take(i as int)).len(),
                decreases k - i,
            {
                proof {
                    lemma_models_text_member_bound(cm, i as int);
                    assert(decreases_to!(*e => e->Node_0));
                    assert(e->Node_0 == *g);
                    assert(decreases_to!(*g => g.children@[i as int]));
                }
                let step = elem_text_len(&g.children[i]);
                proof {
                    lemma_models_text_take_step(cm, i as int);
                }
                total = total + step;
                i = i + 1;
            }
            proof {
                assert(cm.take(k as int) =~= cm);
            }
            total
        },
    }
}

impl<'a> SyntaxNode<'a> {
    /// Wrap a whole green tree as the root cursor: offset zero, no parent.
    pub fn new_root(green: &'a GreenNode) -> (n: SyntaxNode<'a>)
        requires
            model_text(green@).len() <= usize::MAX,
        ensures
            n.wf(),
            n.model() == green@,
            n.start() == 0,
            n.parent_model() is None,
    {
        SyntaxNode { green, offset: 0, parent: Option::None }
    }

    /// An identical cursor, parent chain included.
    fn dup(&self) -> (r: Self)
        ensures
            r == *self,
        decreases *self,
    {
        let parent = match &self.parent {
            Option::None => Option::None,
            Option::Some(b) => Option::Some(Box::new((**b).dup())),
        };
        SyntaxNode { green: self.green, offset: self.offset, parent }
    }

    /// The kind of the wrapped node.
    pub fn kind(&self) -> (k: SyntaxKind)
        ensures
            k == self.model()->Node_kind,
    {
        self.green.kind
    }

    /// The cursor's absolute offset.
    pub fn offset(&self) -> (o: usize)
        ensures
            o as int == self.start(),
    {
        self.offset
    }

    /// The wrapped green node.
    pub fn green(&self) -> (g: &'a GreenNode)
        ensures
            g@ == self.model(),
    {
        self.green
    }

    /// The parent cursor, if any.
    pub fn parent(&self) -> (p: Option<&SyntaxNode<'a>>)
        ensures
            match p {
                Option::Some(q) => self.parent_model() == Option::Some((q.model(), q.start())),
                Option::None => self.parent_model() is None,
            },
    {
        match &self.parent {
            Option::None => Option::None,
            Option::Some(b) => Option::Some(&**b),
        }
    }

    /// Derive the cursors for this node's children, in order: each child's
    /// cursor carries the child's green element, the running absolute
    /// offset, and a parent back-reference to this cursor. The green tree is
    /// not touched; the derivation is a pure function of this cursor.
    pub fn children_with_tokens(&self) -> (els: Vec<SyntaxElement<'a>>)
        requires
            self.wf(),
        ensures
            els@.len() == red_children_model(self.model(), self.start()).len(),
            forall|i: int|
                0 <= i < els@.len() ==> (#[trigger] els@[i]).model() == red_children_model(
                    self.model(),
                    self.start(),
                )[i].0,
            forall|i: int|
                0 <= i < els@.len() ==> (#[trigger] els@[i]).start() == red_children_model(
                    self.model(),
                    self.start(),
                )[i].1,
            forall|i: int|
                0 <= i < els@.len() ==> (#[trigger] els@[i]).parent_model() == Option::Some(
                    (self.model(), self.start()),
                ),
            forall|i: int|
                0 <= i < els@.len() ==> ((#[trigger] els@[i]) matches SyntaxElement::Node(n)
                    ==> n.wf()),
    {
        let ghost cm = elems_model(self.green.children@);
        let ghost rm = red_children_model(self.model(), self.start());
        proof {
            lemma_elems_model_index(self.green.children@);
        }
        let g = self.green;
        let k = g.children.len();
        let mut els: Vec<SyntaxElement<'a>> = Vec::new();
        let mut off = self.offset;
        let mut i: usize = 0;
        proof {
            assert(cm.take(0) =~= Seq::<ElemModel>::empty());
        }
        while i < k
            invariant
                i <= k,
                k == g.children@.len(),
                g == self.green,
                self.wf(),
                cm == elems_model(g.children@),
                rm == red_children_model(self.model(), self.start()),
                cm.len() == k,
                rm.len() == k,
                forall|q: int| 0 <= q < k ==> #[trigger] cm[q] == elem_model(g.children@[q]),
                off as int == self.start() + models_text(cm.take(i as int)).len(),
                els@.len() == i,
                forall|q: int|
                    0 <= q < i ==> (#[trigger] els@[q]).model() == rm[q].0,
                forall|q: int|
                    0 <= q < i ==> (#[trigger] els@[q]).start() == rm[q].1,
                forall|q: int|
                    0 <= q < i ==> (#[trigger] els@[q]).parent_model() == Option::Some(
                        (self.model(), self.start()),
                    ),
                forall|q: int|
                    0 <= q < i ==> ((#[trigger] els@[q]) matches SyntaxElement::Node(n)
                        ==> n.wf()),
            decreases k - i,
        {
            proof {
                lemma_models_text_member_bound(cm, i as int);
                lemma_models_text_prefix_bound(cm, i as int);
            }
            let parent = Option::Some(Box::new(self.dup()));
            let c = &g.children[i];
            let el = match c {
                GreenElement::Node(n2) => SyntaxElement::Node(
                    SyntaxNode { green: n2, offset: off, parent },
                ),
                GreenElement::Token(t2) => SyntaxElement::Token(
                    SyntaxToken { green: t2, offset: off, parent },
                ),
            };
            els.push(el);
            let step = elem_text_len(c);
            off = off + step;
            proof {
                lemma_models_text_take_step(cm, i as int);
            }
            i = i + 1;
        }
        els
    }
}

impl<'a> SyntaxToken<'a> {
    /// The kind of the wrapped token.
    pub fn kind(&self) -> (k: SyntaxKind)
        ensures
            k == self.model()->Token_kind,
    {
        self.green.kind
    }

    /// The exact source text the token covers.
    pub fn text(&self) -> (t: &'a str)
        ensures
            t@ == self.model()->Token_text,
    {
        self.green.text.as_str()
    }

    /// The cursor's absolute offset.
    pub fn offset(&self) -> (o: usize)
        ensures
            o as int == self.start(),
    {
        self.offset
    }

    /// The wrapped green token.
    pub fn green(&self) -> (g: &'a GreenToken)
        ensures
            g@ == self.model(),
    {
        self.green
    }
}

} // verus!
