//! The fragment tree: fragments of text, boxes and lines, built from box
//! nodes and broken into lines.
use vstd::prelude::*;
use crate::arena::KindStore;
use crate::metrics::{fold_lay, lay_all, zero_box, BoxMetrics};
use crate::text::TextSequence;
use crate::tree::{NodeId, Tree};

verus! {

/// A fragment is a node of the fragment tree.
pub type Fragment = NodeId;

#[derive(Clone, Copy, PartialEq, Eq, Structural, Debug)]
pub enum FragmentKind {
    /// A run of text.
    TextSequence,
    /// A forced break in a fragmentation flow.
    Break,
    /// A line box.
    LineBox,
    /// An inline-level box that cannot be fragmented.
    AtomicInline,
    /// A box taking part in an inline formatting context.
    InlineBox,
    /// A block container.
    BlockContainer,
    /// A block box.
    BlockBox,
}

impl FragmentKind {
    /// Inline boxes and text runs.
    pub fn is_inline_level_content(&self) -> (r: bool)
        ensures
            r == (*self is InlineBox || *self is TextSequence),
    {
        match self {
            FragmentKind::InlineBox | FragmentKind::TextSequence => true,
            _ => false,
        }
    }
}

/// `x` is `f` or a descendant of `f` in `t` within `fuel` levels.
pub open spec fn within(t: Tree, f: NodeId, x: NodeId, fuel: nat) -> bool
    decreases fuel,
{
    x == f || (fuel > 0 && exists|k: int|
        0 <= k < t.children(f.0 as int).len() && within(t, #[trigger] t.children(f.0 as int)[k], x, (fuel - 1) as nat))
}

/// Data of a line box.
#[derive(Clone, Copy, PartialEq, Eq, Structural, Debug)]
pub struct LineBox {
    pub logical_width: i32,
}

/// Fragments with their links, kinds, boxes, sources, texts and line data;
/// every vector has one entry per fragment.
pub struct FragmentTree {
    pub tree: Tree,
    pub kinds: KindStore,
    pub boxes: Vec<BoxMetrics>,
    pub sources: Vec<Option<NodeId>>,
    pub texts: Vec<Option<TextSequence>>,
    pub line_boxes: Vec<Option<LineBox>>,
}

impl FragmentTree {
    pub open spec fn len(&self) -> int {
        self.tree.len()
    }

    /// The kind of each fragment, in order.
    pub open spec fn kinds_view(&self) -> Seq<FragmentKind> {
        self.kinds.view()
    }

    pub open spec fn wf(&self) -> bool {
        &&& self.tree.wf()
        &&& self.kinds.wf()
        &&& self.kinds.view().len() == self.len()
        &&& self.boxes@.len() == self.len()
        &&& self.sources@.len() == self.len()
        &&& self.texts@.len() == self.len()
        &&& self.line_boxes@.len() == self.len()
        &&& forall|x: int|
            0 <= x < self.len() && #[trigger] self.kinds_view()[x] == FragmentKind::TextSequence ==> self.texts@[x] is Some
    }

    pub open spec fn valid(&self, f: Fragment) -> bool {
        f.0 < self.len()
    }

    pub open spec fn kind_of(&self, f: Fragment) -> FragmentKind {
        self.kinds_view()[f.0 as int]
    }

    pub open spec fn box_of(&self, f: Fragment) -> BoxMetrics {
        self.boxes@[f.0 as int]
    }

    /// The fragment can be broken further: it has children and is not atomic.
    pub open spec fn fragmentable(&self, f: Fragment) -> bool {
        self.kind_of(f) != FragmentKind::AtomicInline && self.tree.kid(f.0 as int) is Some
    }

    /// The box of `f` computed bottom-up: an atomic inline keeps its box, a
    /// break is the zero box, any other fragment is the left fold of its
    /// children's boxes. `fuel` bounds the depth.
    pub open spec fn computed_box(&self, f: Fragment, fuel: nat) -> BoxMetrics
        decreases fuel, 0nat,
    {
        if fuel == 0 {
            zero_box()
        } else if self.kind_of(f) == FragmentKind::AtomicInline {
            self.box_of(f)
        } else if self.kind_of(f) == FragmentKind::Break {
            zero_box()
        } else {
            fold_lay(self.child_boxes(self.tree.children(f.0 as int), (fuel - 1) as nat))
        }
    }

    /// The computed boxes of the fragments `cs`, in order.
    pub open spec fn child_boxes(&self, cs: Seq<NodeId>, fuel: nat) -> Seq<BoxMetrics>
        decreases fuel, cs.len(),
    {
        if cs.len() == 0 {
            Seq::empty()
        } else {
            self.child_boxes(cs.drop_last(), fuel).push(self.computed_box(cs.last(), fuel))
        }
    }

    /// Same links, kinds and boxes of atomic inlines.
    pub open spec fn same_layout_inputs(&self, o: &FragmentTree) -> bool {
        &&& self.tree.edges@ == o.tree.edges@
        &&& self.tree.succ@ == o.tree.succ@
        &&& self.kinds_view() == o.kinds_view()
        &&& forall|x: int|
            0 <= x < self.kinds_view().len() && self.kinds_view()[x] == FragmentKind::AtomicInline ==> #[trigger] self.boxes@[x]
                == o.boxes@[x]
    }

    /// The computed box reads only links, kinds and the boxes of atomic inlines.
    proof fn lemma_computed_box_inputs(&self, o: &FragmentTree, f: Fragment, fuel: nat)
        requires
            self.wf(),
            self.same_layout_inputs(o),
            self.valid(f),
        ensures
            self.computed_box(f, fuel) == o.computed_box(f, fuel),
        decreases fuel, 0nat,
    {
        if fuel > 0 && self.kind_of(f) == FragmentKind::AtomicInline {
            assert(self.boxes@[f.0 as int] == o.boxes@[f.0 as int]);
        }
        if fuel > 0 && self.kind_of(f) != FragmentKind::AtomicInline && self.kind_of(f) != FragmentKind::Break {
            let cs = self.tree.children(f.0 as int);
            assert(cs == o.tree.children(f.0 as int));
            self.tree.lemma_children_valid_pub(f.0 as int);
            self.lemma_child_boxes_inputs(o, cs, (fuel - 1) as nat);
        }
    }

    proof fn lemma_child_boxes_inputs(&self, o: &FragmentTree, cs: Seq<NodeId>, fuel: nat)
        requires
            self.wf(),
            self.same_layout_inputs(o),
            forall|k: int| 0 <= k < cs.len() ==> self.valid(#[trigger] cs[k]),
        ensures
            self.child_boxes(cs, fuel) == o.child_boxes(cs, fuel),
        decreases fuel, cs.len(),
    {
        if cs.len() > 0 {
            self.lemma_child_boxes_inputs(o, cs.drop_last(), fuel);
            self.lemma_computed_box_inputs(o, cs.last(), fuel);
        }
    }

    pub fn new() -> (r: FragmentTree)
        ensures
            r.wf(),
            r.len() == 0,
    {
        FragmentTree {
            tree: Tree::new(),
            kinds: KindStore::new(),
            boxes: Vec::new(),
            sources: Vec::new(),
            texts: Vec::new(),
            line_boxes: Vec::new(),
        }
    }

    /// Adds an unattached fragment.
    fn new_fragment(
        &mut self,
        kind: FragmentKind,
        bx: BoxMetrics,
        source: Option<NodeId>,
        text: Option<TextSequence>,
        line: Option<LineBox>,
    ) -> (r: Fragment)
        requires
            old(self).wf(),
            old(self).len() < usize::MAX - 1,
            kind == FragmentKind::TextSequence ==> text is Some,
        ensures
            final(self).wf(),
            r.0 == old(self).len(),
            final(self).len() == old(self).len() + 1,
            final(self).kinds_view() == old(self).kinds_view().push(kind),
            final(self).boxes@ == old(self).boxes@.push(bx),
            final(self).sources@ == old(self).sources@.push(source),
            final(self).texts@ == old(self).texts@.push(text),
            final(self).line_boxes@ == old(self).line_boxes@.push(line),
            forall|x: int| 0 <= x < old(self).len() ==> final(self).tree.edges@[x] == old(self).tree.edges@[x],
            forall|x: int| 0 <= x < old(self).len() ==> final(self).tree.succ@[x] == old(self).tree.succ@[x],
            final(self).tree.sib(r.0 as int) is None,
            final(self).tree.kid(r.0 as int) is None,
            final(self).tree.par(r.0 as int) is None,
            final(self).tree.unlinked(r),
            final(self).tree.root == (if old(self).tree.root is None { Some(r) } else { old(self).tree.root }),
    {
        let f = self.tree.bind_edges();
        self.kinds.push(kind);
        self.boxes.push(bx);
        self.sources.push(source);
        self.texts.push(text);
        self.line_boxes.push(line);
        f
    }

    /// The kind of `f`.
    pub fn kind(&self, f: Fragment) -> (r: FragmentKind)
        requires
            self.wf(),
            self.valid(f),
        ensures
            r == self.kind_of(f),
    {
        self.kinds.get(f.0)
    }

    /// Whether `f` is of kind `kind`; false for an unknown fragment.
    pub fn is(&self, f: Fragment, kind: FragmentKind) -> (r: bool)
        requires
            self.wf(),
        ensures
            r == (self.valid(f) && self.kind_of(f) == kind),
    {
        f.0 < self.kinds.len() && self.kind(f) == kind
    }

    pub fn is_break(&self, f: Fragment) -> (r: bool)
        requires
            self.wf(),
        ensures
            r == (self.valid(f) && self.kind_of(f) == FragmentKind::Break),
    {
        self.is(f, FragmentKind::Break)
    }

    /// Whether some child of `f` is a break.
    pub fn is_breakable(&self, f: Fragment) -> (r: bool)
        requires
            self.wf(),
            self.valid(f),
        ensures
            r == exists|k: int|
                0 <= k < self.tree.children(f.0 as int).len() && self.kind_of(
                    #[trigger] self.tree.children(f.0 as int)[k],
                ) == FragmentKind::Break,
    {
        let v = self.tree.iter_children(f);
        proof {
            self.tree.lemma_children_valid_pub(f.0 as int);
        }
        let mut i: usize = 0;
        while i < v.len()
            invariant
                self.wf(),
                v@ == self.tree.children(f.0 as int),
                forall|k: int| 0 <= k < v@.len() ==> self.valid(#[trigger] v@[k]),
                i <= v.len(),
                forall|k: int| 0 <= k < i ==> self.kind_of(#[trigger] v@[k]) != FragmentKind::Break,
            decreases v.len() - i,
        {
            if self.kind(v[i]) == FragmentKind::Break {
                assert(self.kind_of(v@[i as int]) == FragmentKind::Break);
                return true;
            }
            i = i + 1;
        }
        false
    }

    pub fn is_inline_level_content(&self, f: Fragment) -> (r: bool)
        requires
            self.wf(),
            self.valid(f),
        ensures
            r == (self.kind_of(f) is InlineBox || self.kind_of(f) is TextSequence),
    {
        self.kind(f).is_inline_level_content()
    }

    /// Whether every child of `f` is inline-level content.
    pub fn contains_only_inline_level_content(&self, f: Fragment) -> (r: bool)
        requires
            self.wf(),
            self.valid(f),
        ensures
            r == forall|k: int|
                0 <= k < self.tree.children(f.0 as int).len() ==> (#[trigger] self.kind_of(
                    self.tree.children(f.0 as int)[k],
                ) is InlineBox || self.kind_of(self.tree.children(f.0 as int)[k]) is TextSequence),
    {
        let v = self.tree.iter_children(f);
        proof {
            self.tree.lemma_children_valid_pub(f.0 as int);
        }
        let mut i: usize = 0;
        while i < v.len()
            invariant
                self.wf(),
                v@ == self.tree.children(f.0 as int),
                forall|k: int| 0 <= k < v@.len() ==> self.valid(#[trigger] v@[k]),
                i <= v.len(),
                forall|k: int|
                    0 <= k < i ==> (#[trigger] self.kind_of(v@[k]) is InlineBox || self.kind_of(v@[k]) is TextSequence),
            decreases v.len() - i,
        {
            if !self.kind(v[i]).is_inline_level_content() {
                assert(!(self.kind_of(v@[i as int]) is InlineBox || self.kind_of(v@[i as int]) is TextSequence));
                return false;
            }
            i = i + 1;
        }
        true
    }

    /// Whether `f` can be broken further: it has children and is not an atomic inline.
    pub fn is_fragmentable(&self, f: Fragment) -> (r: bool)
        requires
            self.wf(),
            self.valid(f),
        ensures
            r == self.fragmentable(f),
    {
        self.kind(f) != FragmentKind::AtomicInline && !self.tree.is_leaf(f)
    }

    /// The stored box of `f`.
    pub fn borrow_box(&self, f: Fragment) -> (r: &BoxMetrics)
        requires
            self.wf(),
            self.valid(f),
        ensures
            *r == self.box_of(f),
    {
        &self.boxes[f.0]
    }

    /// Stores `bx` as the box of `f`.
    pub fn bind_box(&mut self, f: Fragment, bx: BoxMetrics)
        requires
            old(self).wf(),
            old(self).valid(f),
        ensures
            final(self).wf(),
            final(self).boxes@ == old(self).boxes@.update(f.0 as int, bx),
            final(self).tree == old(self).tree,
            final(self).kinds_view() == old(self).kinds_view(),
            final(self).sources@ == old(self).sources@,
            final(self).texts@ == old(self).texts@,
            final(self).line_boxes@ == old(self).line_boxes@,
    {
        self.boxes[f.0] = bx;
    }

    /// A new unattached break fragment with a zero box.
    pub fn insert_break(&mut self) -> (r: Fragment)
        requires
            old(self).wf(),
            old(self).len() < usize::MAX - 1,
        ensures
            final(self).wf(),
            r.0 == old(self).len(),
            final(self).len() == old(self).len() + 1,
            final(self).kind_of(r) == FragmentKind::Break,
            final(self).box_of(r) == zero_box(),
            final(self).kinds_view() == old(self).kinds_view().push(FragmentKind::Break),
            forall|x: int| 0 <= x < old(self).len() ==> final(self).tree.edges@[x] == old(self).tree.edges@[x],
            forall|x: int| 0 <= x < old(self).len() ==> final(self).tree.succ@[x] == old(self).tree.succ@[x],
            forall|x: int| 0 <= x < old(self).len() ==> final(self).boxes@[x] == old(self).boxes@[x],
            forall|x: int| 0 <= x < old(self).len() ==> final(self).texts@[x] == old(self).texts@[x],
            final(self).tree.sib(r.0 as int) is None,
            final(self).tree.unlinked(r),
            final(self).boxes@ == old(self).boxes@.push(zero_box()),
            final(self).texts@ == old(self).texts@.push(None),
            final(self).sources@ == old(self).sources@.push(None),
            final(self).line_boxes@ == old(self).line_boxes@.push(None),
            final(self).tree.kid(r.0 as int) is None,
            final(self).tree.par(r.0 as int) is None,
    {
        self.new_fragment(FragmentKind::Break, BoxMetrics::zero(), None, None, None)
    }

    /// A new unattached text fragment.
    pub fn insert_text_sequence(&mut self, seq: TextSequence) -> (r: Fragment)
        requires
            old(self).wf(),
            old(self).len() < usize::MAX - 1,
        ensures
            final(self).wf(),
            r.0 == old(self).len(),
            final(self).len() == old(self).len() + 1,
            final(self).kind_of(r) == FragmentKind::TextSequence,
            final(self).texts@[r.0 as int] == Some(seq),
            final(self).box_of(r) == zero_box(),
            final(self).kinds_view() == old(self).kinds_view().push(FragmentKind::TextSequence),
            forall|x: int| 0 <= x < old(self).len() ==> final(self).tree.edges@[x] == old(self).tree.edges@[x],
            forall|x: int| 0 <= x < old(self).len() ==> final(self).tree.succ@[x] == old(self).tree.succ@[x],
            forall|x: int| 0 <= x < old(self).len() ==> final(self).boxes@[x] == old(self).boxes@[x],
            forall|x: int| 0 <= x < old(self).len() ==> final(self).texts@[x] == old(self).texts@[x],
            final(self).tree.sib(r.0 as int) is None,
            final(self).tree.unlinked(r),
    {
        self.new_fragment(FragmentKind::TextSequence, BoxMetrics::zero(), None, Some(seq), None)
    }

    /// Adds a fragment of `kind` and attaches it under `maybe_parent`, if given.
    fn insert_attached(
        &mut self,
        kind: FragmentKind,
        bx: BoxMetrics,
        source: NodeId,
        line: Option<LineBox>,
        maybe_parent: Option<Fragment>,
    ) -> (r: Fragment)
        requires
            old(self).wf(),
            old(self).len() < usize::MAX - 1,
            kind != FragmentKind::TextSequence,
            match maybe_parent {
                Some(p) => old(self).valid(p),
                None => true,
            },
        ensures
            final(self).wf(),
            r.0 == old(self).len(),
            final(self).len() == old(self).len() + 1,
            final(self).kinds_view() == old(self).kinds_view().push(kind),
            final(self).boxes@ == old(self).boxes@.push(bx),
            final(self).sources@[r.0 as int] == Some(source),
            final(self).line_boxes@[r.0 as int] == line,
            final(self).tree.kid(r.0 as int) is None,
            match maybe_parent {
                Some(p) => {
                    &&& final(self).tree.children(p.0 as int) == old(self).tree.children(p.0 as int).push(r)
                    &&& final(self).tree.par(r.0 as int) == Some(p)
                },
                None => final(self).tree.par(r.0 as int) is None,
            },
    {
        let f = self.new_fragment(kind, bx, Some(source), None, line);
        match maybe_parent {
            Some(p) => {
                let ghost t1: Tree = self.tree;
                proof {
                    assert(t1.children(p.0 as int) == old(self).tree.children(p.0 as int)) by {
                        if let Some(h) = old(self).tree.kid(p.0 as int) {
                            assert(t1.succ@[h.0 as int] == old(self).tree.succ@[h.0 as int]);
                        }
                    }
                }
                self.tree.attach_child(p, f);
            },
            None => {},
        }
        f
    }

    /// An atomic inline with its known box, attached under `maybe_parent` if given.
    pub fn insert_atomic_inline(&mut self, bx: BoxMetrics, source: NodeId, maybe_parent: Option<Fragment>) -> (r:
        Fragment)
        requires
            old(self).wf(),
            old(self).len() < usize::MAX - 1,
            match maybe_parent {
                Some(p) => old(self).valid(p),
                None => true,
            },
        ensures
            final(self).wf(),
            r.0 == old(self).len(),
            final(self).len() == old(self).len() + 1,
            final(self).kinds_view() == old(self).kinds_view().push(FragmentKind::AtomicInline),
            final(self).boxes@ == old(self).boxes@.push(bx),
            final(self).sources@[r.0 as int] == Some(source),
            final(self).tree.kid(r.0 as int) is None,
            match maybe_parent {
                Some(p) => {
                    &&& final(self).tree.children(p.0 as int) == old(self).tree.children(p.0 as int).push(r)
                    &&& final(self).tree.par(r.0 as int) == Some(p)
                },
                None => final(self).tree.par(r.0 as int) is None,
            },
    {
        self.insert_attached(FragmentKind::AtomicInline, bx, source, None, maybe_parent)
    }

    /// An inline box, attached under `maybe_parent` if given.
    pub fn insert_inline_box(&mut self, bx: BoxMetrics, source: NodeId, maybe_parent: Option<Fragment>) -> (r:
        Fragment)
        requires
            old(self).wf(),
            old(self).len() < usize::MAX - 1,
            match maybe_parent {
                Some(p) => old(self).valid(p),
                None => true,
            },
        ensures
            final(self).wf(),
            r.0 == old(self).len(),
            final(self).len() == old(self).len() + 1,
            final(self).kinds_view() == old(self).kinds_view().push(FragmentKind::InlineBox),
            final(self).boxes@ == old(self).boxes@.push(bx),
            final(self).sources@[r.0 as int] == Some(source),
            final(self).tree.kid(r.0 as int) is None,
            match maybe_parent {
                Some(p) => {
                    &&& final(self).tree.children(p.0 as int) == old(self).tree.children(p.0 as int).push(r)
                    &&& final(self).tree.par(r.0 as int) == Some(p)
                },
                None => final(self).tree.par(r.0 as int) is None,
            },
    {
        self.insert_attached(FragmentKind::InlineBox, bx, source, None, maybe_parent)
    }

    /// A line box of the given logical width with a zero box, attached under
    /// `maybe_parent` if given.
    pub fn insert_line_box(&mut self, logical_width: i32, source: NodeId, maybe_parent: Option<Fragment>) -> (r:
        Fragment)
        requires
            old(self).wf(),
            old(self).len() < usize::MAX - 1,
            match maybe_parent {
                Some(p) => old(self).valid(p),
                None => true,
            },
        ensures
            final(self).wf(),
            r.0 == old(self).len(),
            final(self).len() == old(self).len() + 1,
            final(self).kinds_view() == old(self).kinds_view().push(FragmentKind::LineBox),
            final(self).boxes@ == old(self).boxes@.push(zero_box()),
            final(self).sources@[r.0 as int] == Some(source),
            final(self).line_boxes@[r.0 as int] == Some(LineBox { logical_width }),
            final(self).tree.kid(r.0 as int) is None,
            match maybe_parent {
                Some(p) => {
                    &&& final(self).tree.children(p.0 as int) == old(self).tree.children(p.0 as int).push(r)
                    &&& final(self).tree.par(r.0 as int) == Some(p)
                },
                None => final(self).tree.par(r.0 as int) is None,
            },
    {
        self.insert_attached(
            FragmentKind::LineBox,
            BoxMetrics::zero(),
            source,
            Some(LineBox { logical_width }),
            maybe_parent,
        )
    }

    /// A copy of `src` (kind, box, source, text and line data) without links.
    pub fn clone_fragment(&mut self, src: Fragment) -> (r: Fragment)
        requires
            old(self).wf(),
            old(self).valid(src),
            old(self).len() < usize::MAX - 1,
        ensures
            final(self).wf(),
            r.0 == old(self).len(),
            final(self).len() == old(self).len() + 1,
            final(self).kinds_view() == old(self).kinds_view().push(old(self).kind_of(src)),
            final(self).boxes@ == old(self).boxes@.push(old(self).box_of(src)),
            final(self).sources@ == old(self).sources@.push(old(self).sources@[src.0 as int]),
            final(self).texts@ == old(self).texts@.push(old(self).texts@[src.0 as int]),
            final(self).line_boxes@ == old(self).line_boxes@.push(old(self).line_boxes@[src.0 as int]),
            forall|x: int| 0 <= x < old(self).len() ==> final(self).tree.edges@[x] == old(self).tree.edges@[x],
            forall|x: int| 0 <= x < old(self).len() ==> final(self).tree.succ@[x] == old(self).tree.succ@[x],
            final(self).tree.sib(r.0 as int) is None,
            final(self).tree.kid(r.0 as int) is None,
            final(self).tree.unlinked(r),
    {
        let kind = self.kind(src);
        let bx = self.boxes[src.0];
        let source = self.sources[src.0];
        let line = self.line_boxes[src.0];
        let text = match &self.texts[src.0] {
            Some(t) => Some(TextSequence { text: t.text.clone() }),
            None => None,
        };
        proof {
            assert(text == self.texts@[src.0 as int]);
        }
        self.new_fragment(kind, bx, source, text, line)
    }

    /// Computes the box of `f` bottom-up and stores it in every fragment
    /// visited that is not an atomic inline.
    pub fn compute_box(&mut self, f: Fragment) -> (r: BoxMetrics)
        requires
            old(self).wf(),
            old(self).valid(f),
        ensures
            final(self).wf(),
            r == old(self).computed_box(f, old(self).len() as nat),
            final(self).same_layout_inputs(old(self)),
            old(self).kind_of(f) != FragmentKind::AtomicInline ==> final(self).box_of(f) == r,
            forall|x: NodeId| old(self).valid(x) && !within(old(self).tree, f, x, old(self).len() as nat) ==> #[trigger] final(self).boxes@[x.0 as int]
                == old(self).boxes@[x.0 as int],
            final(self).sources@ == old(self).sources@,
            final(self).texts@ == old(self).texts@,
            final(self).line_boxes@ == old(self).line_boxes@,
            old(self).kind_of(f) == FragmentKind::AtomicInline ==> *final(self) == *old(self),
    {
        let n = self.tree.node_count();
        self.compute_box_rec(f, n)
    }

    fn compute_box_rec(&mut self, f: Fragment, fuel: usize) -> (r: BoxMetrics)
        requires
            old(self).wf(),
            old(self).valid(f),
        ensures
            final(self).wf(),
            r == old(self).computed_box(f, fuel as nat),
            final(self).same_layout_inputs(old(self)),
            final(self).texts@ == old(self).texts@,
            old(self).kind_of(f) != FragmentKind::AtomicInline && fuel > 0 ==> final(self).box_of(f) == r,
            forall|x: NodeId| old(self).valid(x) && !within(old(self).tree, f, x, fuel as nat) ==> #[trigger] final(self).boxes@[x.0 as int]
                == old(self).boxes@[x.0 as int],
            final(self).boxes@.len() == old(self).boxes@.len(),
            final(self).tree == old(self).tree,
            final(self).sources@ == old(self).sources@,
            final(self).line_boxes@ == old(self).line_boxes@,
            old(self).kind_of(f) == FragmentKind::AtomicInline || fuel == 0 ==> *final(self) == *old(self),
        decreases fuel,
    {
        if fuel == 0 {
            return BoxMetrics::zero();
        }
        let kind = self.kind(f);
        if kind == FragmentKind::AtomicInline {
            return self.boxes[f.0];
        }
        if kind == FragmentKind::Break {
            let z = BoxMetrics::zero();
            self.boxes[f.0] = z;
            assert(self.boxes@ == old(self).boxes@.update(f.0 as int, z));
            assert forall|x: NodeId| old(self).valid(x) && !within(old(self).tree, f, x, fuel as nat) implies #[trigger] self.boxes@[x.0 as int]
                == old(self).boxes@[x.0 as int] by {
                if x.0 == f.0 {
                    assert(x == NodeId(x.0));
                    assert(x == f);
                    assert(within(old(self).tree, f, f, fuel as nat));
                }
            }
            return z;
        }
        let ghost t0: FragmentTree = *self;
        let v = self.tree.iter_children(f);
        proof {
            self.tree.lemma_children_valid_pub(f.0 as int);
        }
        let mut bs: Vec<BoxMetrics> = Vec::new();
        let mut i: usize = 0;
        assert(v@.take(0) =~= Seq::<NodeId>::empty());
        while i < v.len()
            invariant
                self.wf(),
                self.same_layout_inputs(&t0),
                self.texts@ == t0.texts@,
                t0.wf(),
                v@ == t0.tree.children(f.0 as int),
                forall|k: int| 0 <= k < v@.len() ==> t0.valid(#[trigger] v@[k]),
                i <= v.len(),
                fuel > 0,
                bs@ == t0.child_boxes(v@.take(i as int), (fuel - 1) as nat),
                self.tree == t0.tree,
                self.sources@ == t0.sources@,
                self.line_boxes@ == t0.line_boxes@,
                self.boxes@.len() == t0.boxes@.len(),
                forall|x: NodeId|
                    t0.valid(x) && #[trigger] self.boxes@[x.0 as int] != t0.boxes@[x.0 as int] ==> exists|k: int|
                        0 <= k < i && within(t0.tree, v@[k], x, (fuel - 1) as nat),
            decreases v.len() - i,
        {
            let ghost before: FragmentTree = *self;
            let b = self.compute_box_rec(v[i], fuel - 1);
            proof {
                before.lemma_computed_box_inputs(&t0, v@[i as int], (fuel - 1) as nat);
                assert(v@.take(i + 1).drop_last() =~= v@.take(i as int));
                assert(v@.take(i + 1).last() == v@[i as int]);
            }
            proof {
                assert forall|x: NodeId| t0.valid(x) && #[trigger] self.boxes@[x.0 as int] != t0.boxes@[x.0 as int] implies exists|k: int|
                    0 <= k < i + 1 && within(t0.tree, v@[k], x, (fuel - 1) as nat) by {
                    if self.boxes@[x.0 as int] != before.boxes@[x.0 as int] {
                        assert(within(t0.tree, v@[i as int], x, (fuel - 1) as nat));
                    } else {
                        let k = choose|k: int| 0 <= k < i && within(t0.tree, v@[k], x, (fuel - 1) as nat);
                    }
                }
            }
            bs.push(b);
            i = i + 1;
        }
        let r = lay_all(&bs);
        proof {
            assert(v@.take(v@.len() as int) =~= v@);
        }
        let ghost pre: FragmentTree = *self;
        self.boxes[f.0] = r;
        proof {
            assert forall|x: NodeId| t0.valid(x) && !within(t0.tree, f, x, fuel as nat) implies #[trigger] self.boxes@[x.0 as int]
                == t0.boxes@[x.0 as int] by {
                if x.0 == f.0 {
                    assert(x == NodeId(x.0));
                    assert(x == f);
                } else if self.boxes@[x.0 as int] != t0.boxes@[x.0 as int] {
                    assert(pre.boxes@[x.0 as int] == self.boxes@[x.0 as int]);
                    let k = choose|k: int| 0 <= k < v@.len() && within(t0.tree, v@[k], x, (fuel - 1) as nat);
                    assert(t0.tree.children(f.0 as int)[k] == v@[k]);
                    let fm: nat = (fuel as nat - 1) as nat;
                    assert(fm == (fuel - 1) as nat);
                    assert(within(t0.tree, t0.tree.children(f.0 as int)[k], x, fm));
                    assert(exists|k2: int|
                        0 <= k2 < t0.tree.children(f.0 as int).len() && within(
                            t0.tree,
                            #[trigger] t0.tree.children(f.0 as int)[k2],
                            x,
                            fm,
                        ));
                    assert(within(t0.tree, f, x, fuel as nat));
                }
            }
        }
        r
    }
}

} // verus!
