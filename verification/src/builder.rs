//! The tree builder: a mutable, single-writer construction API for green
//! trees with checkpoint/backtrack support and retroactive node wrapping.
//!
//! Open frames form a strict stack. A checkpoint marks the current frame's
//! child count; `start_node_at` later promotes every sibling emitted since
//! that mark under a new parent frame, and `revert` discards them instead.
//! The builder's model is the stack of open frames, each a kind plus the
//! models of the siblings collected so far; every operation's contract states
//! exactly how it rewrites that stack.

use vstd::prelude::*;

use crate::green::{
    lemma_elems_model_push, lemma_elems_model_subrange, lemma_models_text_push,
    lemma_models_text_split, model_text, models_text, ElemModel,
    GreenElement, GreenNode, GreenToken,
};
use crate::kinds::SyntaxKind;

verus! {

/// The model of one open frame: its kind and the siblings emitted so far.
pub type FrameModel = (SyntaxKind, Seq<ElemModel>);

/// One open frame of the builder.
struct Frame {
    kind: SyntaxKind,
    children: Vec<GreenElement>,
}

/// The mutable builder: a strict stack of open frames.
pub struct TreeBuilder {
    frames: Vec<Frame>,
}

/// An opaque marker for a position in the current frame's sibling stream:
/// the frame's depth and its child count at the instant the mark was taken.
#[derive(Clone, Copy)]
pub struct Checkpoint {
    depth: usize,
    count: usize,
}

impl Checkpoint {
    /// The stack depth at which the mark was taken.
    pub closed spec fn depth(&self) -> int {
        self.depth as int
    }

    /// The child count of the then-current frame.
    pub closed spec fn count(&self) -> int {
        self.count as int
    }
}

// ---------------------------------------------------------------------------
// Spec-level stack operations: the model of each builder step.
// ---------------------------------------------------------------------------

/// Push a fresh open frame of the given kind.
pub open spec fn stack_open(st: Seq<FrameModel>, kind: SyntaxKind) -> Seq<FrameModel> {
    st.push((kind, Seq::empty()))
}

/// Emit one element into the current frame.
pub open spec fn stack_emit(st: Seq<FrameModel>, m: ElemModel) -> Seq<FrameModel>
    recommends
        st.len() > 0,
{
    st.update(st.len() - 1, (st.last().0, st.last().1.push(m)))
}

/// Close the current frame: it becomes a node appended to its parent frame.
pub open spec fn stack_close(st: Seq<FrameModel>) -> Seq<FrameModel>
    recommends
        st.len() >= 2,
{
    stack_emit(
        st.drop_last(),
        ElemModel::Node { kind: st.last().0, children: st.last().1 },
    )
}

/// Retroactively open a frame of the given kind that adopts every sibling of
/// the current frame from position `count` on.
pub open spec fn stack_open_at(st: Seq<FrameModel>, count: int, kind: SyntaxKind) -> Seq<
    FrameModel,
>
    recommends
        st.len() > 0,
        0 <= count <= st.last().1.len(),
{
    st.update(st.len() - 1, (st.last().0, st.last().1.take(count))).push(
        (kind, st.last().1.skip(count)),
    )
}

/// Discard every sibling of the current frame from position `count` on.
pub open spec fn stack_revert(st: Seq<FrameModel>, count: int) -> Seq<FrameModel>
    recommends
        st.len() > 0,
        0 <= count <= st.last().1.len(),
{
    st.update(st.len() - 1, (st.last().0, st.last().1.take(count)))
}

/// Emit a whole run of elements into the current frame.
pub open spec fn stack_extend(st: Seq<FrameModel>, ms: Seq<ElemModel>) -> Seq<FrameModel>
    recommends
        st.len() > 0,
{
    st.update(st.len() - 1, (st.last().0, st.last().1 + ms))
}

/// Emitting one element is extending by a singleton run.
pub proof fn lemma_stack_emit_extend(st: Seq<FrameModel>, m: ElemModel)
    requires
        st.len() > 0,
    ensures
        stack_emit(st, m) == stack_extend(st, seq![m]),
{
    assert(st.last().1.push(m) =~= st.last().1 + seq![m]);
}

/// Extending by nothing changes nothing.
pub proof fn lemma_stack_extend_nil(st: Seq<FrameModel>)
    requires
        st.len() > 0,
    ensures
        stack_extend(st, Seq::<ElemModel>::empty()) == st,
{
    assert(st.last().1 + Seq::<ElemModel>::empty() =~= st.last().1);
    assert(stack_extend(st, Seq::<ElemModel>::empty()) =~~= st);
}

/// Consecutive extensions concatenate.
pub proof fn lemma_stack_extend_extend(st: Seq<FrameModel>, a: Seq<ElemModel>, b: Seq<ElemModel>)
    requires
        st.len() > 0,
    ensures
        stack_extend(stack_extend(st, a), b) == stack_extend(st, a + b),
{
    assert((st.last().1 + a) + b =~= st.last().1 + (a + b));
    assert(stack_extend(stack_extend(st, a), b) =~~= stack_extend(st, a + b));
}

/// Wrapping everything emitted since a checkpoint under a new node turns an
/// extension by `e` into an extension by the single node holding `e`.
pub proof fn lemma_wrap_extend(st: Seq<FrameModel>, e: Seq<ElemModel>, kind: SyntaxKind)
    requires
        st.len() > 0,
    ensures
        stack_close(stack_open_at(stack_extend(st, e), st.last().1.len() as int, kind))
            == stack_extend(st, seq![ElemModel::Node { kind, children: e }]),
{
    let cnt = st.last().1.len() as int;
    let ext = stack_extend(st, e);
    lemma_checkpoint_wraps(ext, cnt, kind);
    let wrapped = stack_close(stack_open_at(ext, cnt, kind));
    assert(ext.last().1.take(cnt) =~= st.last().1);
    assert(ext.last().1.skip(cnt) =~= e);
    assert(ext.drop_last() =~= st.drop_last());
    assert(wrapped.last().1 =~= st.last().1 + seq![ElemModel::Node { kind, children: e }]);
    assert(wrapped =~~= stack_extend(st, seq![ElemModel::Node { kind, children: e }]));
}

/// Reverting to a checkpoint discards exactly what was emitted since it.
pub proof fn lemma_revert_restores(st: Seq<FrameModel>, e: Seq<ElemModel>)
    requires
        st.len() > 0,
    ensures
        stack_revert(stack_extend(st, e), st.last().1.len() as int) == st,
{
    let cnt = st.last().1.len() as int;
    assert((st.last().1 + e).take(cnt) =~= st.last().1);
    assert(stack_revert(stack_extend(st, e), cnt) =~~= st);
}

/// The source text buffered in the whole stack, outermost frame first.
pub open spec fn stack_text(st: Seq<FrameModel>) -> Seq<char>
    decreases st,
{
    if st.len() == 0 {
        Seq::empty()
    } else {
        models_text(st[0].1) + stack_text(st.drop_first())
    }
}

/// The buffered text splits as everything below the top frame plus the top
/// frame's own text.
pub proof fn lemma_stack_text_last(st: Seq<FrameModel>)
    requires
        st.len() > 0,
    ensures
        stack_text(st) == stack_text(st.drop_last()) + models_text(st.last().1),
    decreases st.len(),
{
    if st.len() == 1 {
        assert(st.drop_last() =~= Seq::<FrameModel>::empty());
        assert(st.drop_first() =~= Seq::<FrameModel>::empty());
        assert(stack_text(st) =~= stack_text(st.drop_last()) + models_text(st.last().1));
    } else {
        lemma_stack_text_last(st.drop_first());
        assert(st.drop_first().drop_last() =~= st.drop_last().drop_first());
        assert(st.drop_first().last() == st.last());
        assert(st.drop_last()[0] == st[0]);
        assert(stack_text(st) =~= stack_text(st.drop_last()) + models_text(st.last().1));
    }
}

/// Emitting an element appends exactly its text.
pub proof fn lemma_stack_text_emit(st: Seq<FrameModel>, m: ElemModel)
    requires
        st.len() > 0,
    ensures
        stack_text(stack_emit(st, m)) == stack_text(st) + model_text(m),
{
    let st2 = stack_emit(st, m);
    lemma_stack_text_last(st2);
    lemma_stack_text_last(st);
    assert(st2.drop_last() =~= st.drop_last());
    lemma_models_text_push(st.last().1, m);
    assert(stack_text(st2) =~= stack_text(st) + model_text(m));
}

/// Closing a frame moves its text under the new node: nothing is lost.
pub proof fn lemma_stack_text_close(st: Seq<FrameModel>)
    requires
        st.len() >= 2,
    ensures
        stack_text(stack_close(st)) == stack_text(st),
{
    let st2 = stack_close(st);
    let node = ElemModel::Node { kind: st.last().0, children: st.last().1 };
    lemma_stack_text_emit(st.drop_last(), node);
    lemma_stack_text_last(st);
    assert(stack_text(st2) =~= stack_text(st));
}

/// Retroactive wrapping reshuffles the top frame but keeps its text.
pub proof fn lemma_stack_text_open_at(st: Seq<FrameModel>, count: int, kind: SyntaxKind)
    requires
        st.len() > 0,
        0 <= count <= st.last().1.len(),
    ensures
        stack_text(stack_open_at(st, count, kind)) == stack_text(st),
{
    let st2 = stack_open_at(st, count, kind);
    let mid = st.update(st.len() - 1, (st.last().0, st.last().1.take(count)));
    lemma_stack_text_last(st2);
    assert(st2.drop_last() =~= mid);
    lemma_stack_text_last(mid);
    assert(mid.drop_last() =~= st.drop_last());
    lemma_stack_text_last(st);
    lemma_models_text_split(st.last().1, count);
    assert(stack_text(st2) =~= stack_text(st));
}

/// Checkpoint correctness: wrapping at a checkpoint and closing the wrapper
/// synthesizes a parent node whose children are exactly the siblings emitted
/// since the checkpoint, in the order they were emitted, with none dropped and none
/// duplicated; the siblings before the checkpoint stay where they were, and
/// the buffered text is unchanged.
pub proof fn lemma_checkpoint_wraps(st: Seq<FrameModel>, count: int, kind: SyntaxKind)
    requires
        st.len() > 0,
        0 <= count <= st.last().1.len(),
    ensures
        ({
            let wrapped = stack_close(stack_open_at(st, count, kind));
            &&& wrapped.len() == st.len()
            &&& wrapped.drop_last() == st.drop_last()
            &&& wrapped.last().0 == st.last().0
            &&& wrapped.last().1 == st.last().1.take(count).push(
                ElemModel::Node { kind, children: st.last().1.skip(count) },
            )
            &&& stack_text(wrapped) == stack_text(st)
        }),
{
    let opened = stack_open_at(st, count, kind);
    let wrapped = stack_close(opened);
    lemma_stack_text_open_at(st, count, kind);
    lemma_stack_text_close(opened);
    assert(wrapped.drop_last() =~= st.drop_last());
    assert(wrapped.len() == st.len());
}

// ---------------------------------------------------------------------------
// The executable builder.
// ---------------------------------------------------------------------------

impl View for TreeBuilder {
    type V = Seq<FrameModel>;

    closed spec fn view(&self) -> Seq<FrameModel> {
        self.frames@.map(|i: int, f: Frame| (f.kind, crate::green::elems_model(f.children@)))
    }
}

impl TreeBuilder {
    /// A fresh builder with no open frame.
    pub fn new() -> (b: TreeBuilder)
        ensures
            b@ == Seq::<FrameModel>::empty(),
    {
        let b = TreeBuilder { frames: Vec::new() };
        proof {
            assert(b@ =~~= Seq::<FrameModel>::empty());
        }
        b
    }

    /// Push a new open node frame of the given kind.
    pub fn start_node(&mut self, kind: SyntaxKind)
        ensures
            final(self)@ == stack_open(old(self)@, kind),
    {
        self.frames.push(Frame { kind, children: Vec::new() });
        proof {
            assert(self@ =~~= stack_open(old(self)@, kind));
        }
    }

    /// Append a leaf token to the current open frame.
    pub fn token(&mut self, kind: SyntaxKind, text: String)
        requires
            old(self)@.len() > 0,
        ensures
            final(self)@ == stack_emit(
                old(self)@,
                ElemModel::Token { kind, text: text@ },
            ),
    {
        let ghost st = self@;
        let ghost m = ElemModel::Token { kind, text: text@ };
        let el = GreenElement::Token(GreenToken { kind, text });
        let ghost ge = el;
        let mut f = self.frames.pop().unwrap();
        let ghost cs = f.children@;
        f.children.push(el);
        proof {
            lemma_elems_model_push(cs, ge);
        }
        self.frames.push(f);
        proof {
            assert(self@ =~~= stack_emit(st, m));
        }
    }

    /// Pop the current frame and attach it as a node child of its parent.
    pub fn finish_node(&mut self)
        requires
            old(self)@.len() >= 2,
        ensures
            final(self)@ == stack_close(old(self)@),
    {
        let ghost st = self@;
        let f = self.frames.pop().unwrap();
        let el = GreenElement::Node(GreenNode { kind: f.kind, children: f.children });
        let ghost ge = el;
        let mut p = self.frames.pop().unwrap();
        let ghost cs = p.children@;
        p.children.push(el);
        proof {
            lemma_elems_model_push(cs, ge);
        }
        self.frames.push(p);
        proof {
            assert(self@ =~~= stack_close(st));
        }
    }

    /// A marker for the current frame's current child count. Constant time,
    /// no allocation.
    pub fn checkpoint(&self) -> (cp: Checkpoint)
        requires
            self@.len() > 0,
        ensures
            cp.depth() == self@.len(),
            cp.count() == self@.last().1.len(),
    {
        let depth = self.frames.len();
        let count = self.frames[depth - 1].children.len();
        proof {
            crate::green::lemma_elems_model_index(self.frames@[depth - 1].children@);
        }
        Checkpoint { depth, count }
    }

    /// Retroactively insert a new open frame that adopts every sibling
    /// emitted since the checkpoint; it stays the current frame until a later
    /// `finish_node` closes it.
    pub fn start_node_at(&mut self, cp: Checkpoint, kind: SyntaxKind)
        requires
            old(self)@.len() > 0,
            cp.depth() == old(self)@.len(),
            0 <= cp.count() <= old(self)@.last().1.len(),
        ensures
            final(self)@ == stack_open_at(old(self)@, cp.count(), kind),
    {
        let ghost st = self@;
        let mut f = self.frames.pop().unwrap();
        let ghost cs = f.children@;
        proof {
            crate::green::lemma_elems_model_index(cs);
        }
        let moved = f.children.split_off(cp.count);
        proof {
            lemma_elems_model_subrange(cs, 0, cp.count() as int);
            lemma_elems_model_subrange(cs, cp.count() as int, cs.len() as int);
        }
        self.frames.push(f);
        self.frames.push(Frame { kind, children: moved });
        proof {
            assert(st.last().1.take(cp.count()) =~= crate::green::elems_model(
                cs.subrange(0, cp.count() as int),
            ));
            assert(st.last().1.skip(cp.count()) =~= crate::green::elems_model(
                cs.subrange(cp.count() as int, cs.len() as int),
            ));
            assert(self@ =~~= stack_open_at(st, cp.count(), kind));
        }
    }

    /// Discard every sibling emitted since the checkpoint: the backtracking
    /// half of the checkpoint protocol.
    pub fn revert(&mut self, cp: Checkpoint)
        requires
            old(self)@.len() > 0,
            cp.depth() == old(self)@.len(),
            0 <= cp.count() <= old(self)@.last().1.len(),
        ensures
            final(self)@ == stack_revert(old(self)@, cp.count()),
    {
        let ghost st = self@;
        let mut f = self.frames.pop().unwrap();
        let ghost cs = f.children@;
        proof {
            crate::green::lemma_elems_model_index(cs);
        }
        f.children.truncate(cp.count);
        proof {
            lemma_elems_model_subrange(cs, 0, cp.count() as int);
        }
        self.frames.push(f);
        proof {
            assert(st.last().1.take(cp.count()) =~= crate::green::elems_model(
                cs.subrange(0, cp.count() as int),
            ));
            assert(self@ =~~= stack_revert(st, cp.count()));
        }
    }

    /// Finalize: the single remaining frame becomes the completed immutable
    /// tree.
    pub fn finish(self) -> (root: GreenNode)
        requires
            self@.len() == 1,
        ensures
            root@ == (ElemModel::Node { kind: self@[0].0, children: self@[0].1 }),
    {
        let mut frames = self.frames;
        let ghost st = frames@.map(
            |i: int, f: Frame| (f.kind, crate::green::elems_model(f.children@)),
        );
        let f = frames.pop().unwrap();
        GreenNode { kind: f.kind, children: f.children }
    }
}

} // verus!
